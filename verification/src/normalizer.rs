//! Text normalization for tokenizers.
//!
//! Normalizers transform text before tokenization. Common operations are
//! lowercasing (BERT uncased models), Unicode normalization (NFC, NFD), and
//! cleaning control characters.
use crate::charsmap::PrecompiledCharsmap;
use crate::pretokie::util;
use crate::pretokie::util::is_category;
use crate::replace;
use crate::replace::fnr;
use crate::text;
use crate::text::same_text;
use std::borrow::Cow;
use std::sync::Arc;
use vstd::prelude::*;
use vstd::string::*;

verus! {

// ---- Unicode normalization forms ----

/// The NFC form of a text.
pub uninterp spec fn nfc_form(s: Seq<char>) -> Seq<char>;

/// The NFKC form of a text.
pub uninterp spec fn nfkc_form(s: Seq<char>) -> Seq<char>;

/// The NFD form of a text.
pub uninterp spec fn nfd_form(s: Seq<char>) -> Seq<char>;

/// The NFKD form of a text.
pub uninterp spec fn nfkd_form(s: Seq<char>) -> Seq<char>;

/// Trusted: `icu_normalizer::ComposingNormalizer::new_nfc`, then `normalize`.
/// The result is the text's NFC form. It is borrowed only where it is the text
/// itself, and, being a normalization form, it is its own NFC form.
#[verifier::external_body]
fn nfc<'a>(text: &'a str) -> (r: Cow<'a, str>)
    ensures
        r@ == nfc_form(text@),
        r is Borrowed ==> r@ == text@,
        nfc_form(r@) == r@,
{
    icu_normalizer::ComposingNormalizer::new_nfc().normalize(text)
}

/// Trusted: `icu_normalizer::ComposingNormalizer::new_nfkc`, then `normalize`.
/// The result is the text's NFKC form.
#[verifier::external_body]
fn nfkc<'a>(text: &'a str) -> (r: Cow<'a, str>)
    ensures
        r@ == nfkc_form(text@),
{
    icu_normalizer::ComposingNormalizer::new_nfkc().normalize(text)
}

/// Trusted: `icu_normalizer::DecomposingNormalizer::new_nfd`, then
/// `normalize`. The result is the text's NFD form.
#[verifier::external_body]
fn nfd<'a>(text: &'a str) -> (r: Cow<'a, str>)
    ensures
        r@ == nfd_form(text@),
{
    icu_normalizer::DecomposingNormalizer::new_nfd().normalize(text)
}

/// Trusted: `icu_normalizer::DecomposingNormalizer::new_nfkd`, then
/// `normalize`. The result is the text's NFKD form.
#[verifier::external_body]
fn nfkd<'a>(text: &'a str) -> (r: Cow<'a, str>)
    ensures
        r@ == nfkd_form(text@),
{
    icu_normalizer::DecomposingNormalizer::new_nfkd().normalize(text)
}

/// The lowercase of a character, which may take several characters.
pub uninterp spec fn char_lowercase(c: char) -> Seq<char>;

/// Trusted: `char::to_lowercase`, collected.
#[verifier::external_body]
fn to_lowercase(c: char) -> (r: Vec<char>)
    ensures
        r@ == char_lowercase(c),
{
    c.to_lowercase().collect()
}

/// The text behind a `Cow`.
pub fn cow_str<'b>(c: &'b Cow<'_, str>) -> (r: &'b str)
    ensures
        r@ == c@,
{
    match c {
        Cow::Borrowed(s) => s,
        Cow::Owned(s) => s.as_str(),
    }
}

/// A normalized text, borrowed where normalizing changed nothing.
fn borrow_unchanged<'a>(text: &'a str, r: Cow<'a, str>) -> (out: Cow<'a, str>)
    requires
        r is Borrowed ==> r@ == text@,
    ensures
        out@ == r@,
        out is Borrowed <==> r@ == text@,
{
    if same_text(cow_str(&r), text) {
        Cow::Borrowed(text)
    } else {
        r
    }
}

// ---- character classes ----

/// One of the four categories of characters without a visible form: control,
/// format, unassigned and private use. Tab, newline and carriage return are
/// whitespace instead.
pub open spec fn control(c: char) -> bool {
    if c == '\t' || c == '\n' || c == '\r' {
        false
    } else if (c as u32) < 0x80 {
        (c as u32) < 0x20 || c as u32 == 0x7f
    } else {
        util::in_category(c, 'C', 'c') || util::in_category(c, 'C', 'f') || util::in_category(
            c,
            'C',
            'n',
        ) || util::in_category(c, 'C', 'o')
    }
}

/// Space, tab, newline, carriage return, or a Unicode space separator.
pub open spec fn bert_whitespace(c: char) -> bool {
    c == ' ' || c == '\t' || c == '\n' || c == '\r' || ((c as u32) >= 0x80 && util::in_category(
        c,
        'Z',
        's',
    ))
}

/// A nonspacing mark. Up to U+036F these are U+0300 to U+036F.
pub open spec fn combining_mark(c: char) -> bool {
    if c as u32 <= 0x036f {
        c as u32 >= 0x0300
    } else {
        util::in_category(c, 'M', 'n')
    }
}

/// Check if a character is a Unicode control character.
fn is_control(c: char) -> (r: bool)
    ensures
        r == control(c),
{
    if c == '\t' || c == '\n' || c == '\r' {
        false
    } else if (c as u32) < 0x80 {
        (c as u32) < 0x20 || c as u32 == 0x7f
    } else {
        is_category(c, 0x43, 0x63) || is_category(c, 0x43, 0x66) || is_category(c, 0x43, 0x6e)
            || is_category(c, 0x43, 0x6f)
    }
}

/// Check if a character is whitespace (for BERT normalization).
fn is_bert_whitespace(c: char) -> (r: bool)
    ensures
        r == bert_whitespace(c),
{
    c == ' ' || c == '\t' || c == '\n' || c == '\r' || ((c as u32) >= 0x80 && is_category(
        c,
        0x5a,
        0x73,
    ))
}

/// Fast check for combining marks: inline range checks before the full lookup.
fn is_combining_mark(c: char) -> (r: bool)
    ensures
        r == combining_mark(c),
{
    let cp: u32 = c as u32;
    if cp < 0x0300 {
        false
    } else if cp <= 0x036f {
        true
    } else {
        is_category(c, 0x4d, 0x6e)
    }
}

/// A character that `clean_text` removes.
pub open spec fn removed(c: char) -> bool {
    c == '\0' || c == '\u{FFFD}' || control(c)
}

fn is_removed(c: char) -> (r: bool)
    ensures
        r == removed(c),
{
    c == '\0' || c == '\u{FFFD}' || is_control(c)
}

// ---- cleaning ----

/// What `clean_text` makes of a character.
pub open spec fn cleaned_char(c: char) -> Seq<char> {
    if removed(c) {
        seq![]
    } else if bert_whitespace(c) {
        seq![' ']
    } else {
        seq![c]
    }
}

/// A text without control characters, its whitespace turned into spaces.
pub open spec fn cleaned(s: Seq<char>) -> Seq<char>
    decreases s.len(),
{
    if s.len() == 0 {
        seq![]
    } else {
        cleaned(s.drop_last()) + cleaned_char(s.last())
    }
}

/// A text of which cleaning changes no character.
pub open spec fn is_clean(s: Seq<char>) -> bool {
    forall|i: int| 0 <= i < s.len() ==> cleaned_char(#[trigger] s[i]) == seq![s[i]]
}

/// The first characters of a text, one more of them.
proof fn lemma_take_next(s: Seq<char>, i: int)
    requires
        0 <= i < s.len(),
    ensures
        s.subrange(0, i + 1).drop_last() == s.subrange(0, i),
        s.subrange(0, i + 1).last() == s[i],
        s.subrange(0, i + 1).len() == i + 1,
{
    assert(s.subrange(0, i + 1).drop_last() =~= s.subrange(0, i));
}

/// Cleaning keeps a clean text.
proof fn lemma_clean(s: Seq<char>)
    requires
        is_clean(s),
    ensures
        cleaned(s) == s,
    decreases s.len(),
{
    if s.len() > 0 {
        let d = s.drop_last();
        assert forall|i: int| 0 <= i < d.len() implies cleaned_char(#[trigger] d[i]) == seq![
            d[i],
        ] by {
            assert(d[i] == s[i]);
        }
        lemma_clean(d);
        assert(cleaned_char(s[s.len() - 1]) == seq![s.last()]);
        assert(cleaned(s) =~= s);
    } else {
        assert(cleaned(s) =~= s);
    }
}

/// Cleaning makes no text longer, and a text that it does not change is clean.
proof fn lemma_unchanged_is_clean(s: Seq<char>)
    ensures
        cleaned(s).len() <= s.len(),
        cleaned(s) == s ==> is_clean(s),
    decreases s.len(),
{
    if s.len() > 0 {
        let (d, c) = (s.drop_last(), s.last());
        lemma_unchanged_is_clean(d);
        if cleaned(s) == s {
            assert(cleaned_char(c).len() == 1);
            assert(cleaned(s).drop_last() =~= cleaned(d));
            assert(cleaned(s).last() == cleaned_char(c)[0]);
            assert(cleaned_char(c) =~= seq![c]);
            assert forall|i: int| 0 <= i < s.len() implies cleaned_char(#[trigger] s[i]) == seq![
                s[i],
            ] by {
                if i < d.len() {
                    assert(cleaned_char(d[i]) == seq![d[i]]);
                }
            }
        }
    }
}

/// A text is clean just where cleaning does not change it.
pub proof fn law_clean_is_unchanged(s: Seq<char>)
    ensures
        is_clean(s) <==> cleaned(s) == s,
{
    lemma_unchanged_is_clean(s);
    if is_clean(s) {
        lemma_clean(s);
    }
}

/// Cleaning leaves a clean text.
proof fn lemma_cleaned_is_clean(s: Seq<char>)
    ensures
        is_clean(cleaned(s)),
    decreases s.len(),
{
    if s.len() > 0 {
        let d = s.drop_last();
        lemma_cleaned_is_clean(d);
        let more = cleaned_char(s.last());
        assert forall|i: int| 0 <= i < cleaned(s).len() implies cleaned_char(
            #[trigger] cleaned(s)[i],
        ) == seq![cleaned(s)[i]] by {
            if i < cleaned(d).len() {
                assert(cleaned(s)[i] == cleaned(d)[i]);
            } else {
                assert(cleaned(s)[i] == more[i - cleaned(d).len()]);
            }
        }
    }
}

/// Cleaning twice is cleaning once.
pub proof fn law_clean_twice(s: Seq<char>)
    ensures
        cleaned(cleaned(s)) == cleaned(s),
{
    lemma_cleaned_is_clean(s);
    lemma_clean(cleaned(s));
}

/// Clean text by removing control characters and normalizing whitespace.
///
/// Removes null (U+0000), replacement char (U+FFFD), and control characters,
/// and normalizes all whitespace variants to the standard space. Returns
/// `Cow::Borrowed` when no changes are needed.
pub fn clean_text<'a>(text: &'a str) -> (r: Cow<'a, str>)
    ensures
        r@ == cleaned(text@),
        r is Borrowed <==> is_clean(text@),
        r is Borrowed <==> r@ == text@,
{
    proof {
        law_clean_is_unchanged(text@);
    }
    let mut clean = true;
    for c in it: text.chars()
        invariant
            it.seq() == text@,
            clean <==> is_clean(text@.subrange(0, it.index() as int)),
    {
        let ghost i = it.index() as int;
        let keeps = !is_removed(c) && (!is_bert_whitespace(c) || c == ' ');
        proof {
            let (old, new) = (text@.subrange(0, i), text@.subrange(0, i + 1));
            assert(new[i] == c);
            assert(keeps <==> cleaned_char(c) == seq![c]) by {
                assert(seq![' '][0] == ' ' && seq![c][0] == c);
            }
            assert(is_clean(new) <==> is_clean(old) && keeps) by {
                if is_clean(new) {
                    assert forall|j: int| 0 <= j < old.len() implies cleaned_char(
                        #[trigger] old[j],
                    ) == seq![old[j]] by {
                        assert(old[j] == new[j]);
                    }
                }
                if is_clean(old) && keeps {
                    assert forall|j: int| 0 <= j < new.len() implies cleaned_char(
                        #[trigger] new[j],
                    ) == seq![new[j]] by {
                        if j < i {
                            assert(old[j] == new[j]);
                        }
                    }
                }
            }
        }
        clean = clean && keeps;
    }
    assert(text@.subrange(0, text@.len() as int) =~= text@);
    if clean {
        proof {
            lemma_clean(text@);
        }
        return Cow::Borrowed(text);
    }
    let mut result = String::new();
    for c in it: text.chars()
        invariant
            it.seq() == text@,
            result@ == cleaned(text@.subrange(0, it.index() as int)),
    {
        proof {
            lemma_take_next(text@, it.index() as int);
        }
        if !is_removed(c) {
            if is_bert_whitespace(c) {
                result.push(' ');
            } else {
                result.push(c);
            }
        }
    }
    Cow::Owned(result)
}

// ---- accents and case ----

/// The text without its nonspacing marks.
pub open spec fn without_marks(s: Seq<char>) -> Seq<char>
    decreases s.len(),
{
    if s.len() == 0 {
        seq![]
    } else if combining_mark(s.last()) {
        without_marks(s.drop_last())
    } else {
        without_marks(s.drop_last()).push(s.last())
    }
}

/// A text without its accents: decomposed, and rid of nonspacing marks. An
/// ASCII text has none.
pub open spec fn unaccented(s: Seq<char>) -> Seq<char> {
    if vstd::utf8::is_ascii_chars(s) {
        s
    } else {
        without_marks(nfd_form(s))
    }
}

/// Strip accents (diacritical marks) from text: NFD normalization, then
/// nonspacing marks are filtered out.
pub fn strip_accents<'a>(text: &'a str) -> (r: Cow<'a, str>)
    ensures
        r@ == unaccented(text@),
{
    if text.is_ascii() {
        return Cow::Borrowed(text);
    }
    let decomposed = nfd(text);
    let d = cow_str(&decomposed);
    let mut result = String::new();
    for c in it: d.chars()
        invariant
            it.seq() == d@,
            result@ == without_marks(d@.subrange(0, it.index() as int)),
    {
        proof {
            lemma_take_next(d@, it.index() as int);
        }
        if !is_combining_mark(c) {
            result.push(c);
        }
    }
    assert(d@.subrange(0, d@.len() as int) =~= d@);
    Cow::Owned(result)
}

/// The lowercase of an ASCII character.
pub open spec fn ascii_lowercase(c: char) -> char {
    if 'A' <= c && c <= 'Z' {
        ((c as u8) + 32) as char
    } else {
        c
    }
}

/// What BERT uncased normalization makes of a character of a decomposed text:
/// marks and controls go, whitespace becomes a space, the rest is lowercased.
pub open spec fn uncased_char(c: char) -> Seq<char> {
    if combining_mark(c) || removed(c) {
        seq![]
    } else if bert_whitespace(c) {
        seq![' ']
    } else if (c as u32) < 0x80 {
        seq![ascii_lowercase(c)]
    } else {
        char_lowercase(c)
    }
}

/// What BERT uncased normalization makes of a decomposed text.
pub open spec fn uncased(s: Seq<char>) -> Seq<char>
    decreases s.len(),
{
    if s.len() == 0 {
        seq![]
    } else {
        uncased(s.drop_last()) + uncased_char(s.last())
    }
}

/// What BERT uncased normalization makes of a text: cleaned, without accents,
/// in lower case. An ASCII text is its own decomposition.
pub open spec fn bert_uncased(s: Seq<char>) -> Seq<char> {
    if vstd::utf8::is_ascii_chars(s) {
        uncased(s)
    } else {
        uncased(nfd_form(s))
    }
}

/// A text of which BERT uncased normalization changes no character.
pub open spec fn is_uncased(s: Seq<char>) -> bool {
    forall|i: int| 0 <= i < s.len() ==> uncased_char(#[trigger] s[i]) == seq![s[i]]
}

proof fn lemma_uncased(s: Seq<char>)
    requires
        is_uncased(s),
    ensures
        uncased(s) == s,
    decreases s.len(),
{
    if s.len() > 0 {
        let d = s.drop_last();
        assert forall|i: int| 0 <= i < d.len() implies uncased_char(#[trigger] d[i]) == seq![
            d[i],
        ] by {
            assert(d[i] == s[i]);
        }
        lemma_uncased(d);
        assert(uncased_char(s[s.len() - 1]) == seq![s.last()]);
        assert(uncased(s) =~= s);
    } else {
        assert(uncased(s) =~= s);
    }
}

/// An ASCII letter in lower case.
pub fn lower_ascii(c: char) -> (r: char)
    ensures
        r == ascii_lowercase(c),
{
    if 'A' <= c && c <= 'Z' {
        (c as u8 + 32) as char
    } else {
        c
    }
}

/// Append characters.
fn push_chars(out: &mut String, cs: &Vec<char>)
    ensures
        final(out)@ == old(out)@ + cs@,
{
    let mut i: usize = 0;
    assert(out@ =~= old(out)@ + cs@.subrange(0, 0));
    while i < cs.len()
        invariant
            i <= cs.len(),
            out@ == old(out)@ + cs@.subrange(0, i as int),
        decreases cs.len() - i,
    {
        out.push(cs[i]);
        i = i + 1;
        assert(out@ =~= old(out)@ + cs@.subrange(0, i as int));
    }
    assert(cs@.subrange(0, cs@.len() as int) =~= cs@);
}

/// Append what BERT uncased normalization makes of a decomposed text.
fn push_uncased(out: &mut String, d: &str)
    requires
        old(out)@.len() == 0,
    ensures
        final(out)@ == uncased(d@),
{
    for c in it: d.chars()
        invariant
            it.seq() == d@,
            out@ == uncased(d@.subrange(0, it.index() as int)),
    {
        proof {
            lemma_take_next(d@, it.index() as int);
        }
        if is_combining_mark(c) || is_removed(c) {
        } else if is_bert_whitespace(c) {
            out.push(' ');
        } else if (c as u32) < 0x80 {
            out.push(lower_ascii(c));
        } else {
            let lower = to_lowercase(c);
            push_chars(out, &lower);
        }
    }
    assert(d@.subrange(0, d@.len() as int) =~= d@);
}

/// Fused BERT uncased normalization: clean_text, strip_accents and lowercase in one pass.
///
/// Returns `Cow::Borrowed` when no changes are needed.
pub fn bert_uncased_normalize<'a>(text: &'a str) -> (r: Cow<'a, str>)
    ensures
        r@ == bert_uncased(text@),
        r is Borrowed <==> r@ == text@,
{
    let mut result = String::new();
    if !text.is_ascii() {
        let decomposed = nfd(text);
        push_uncased(&mut result, cow_str(&decomposed));
        return borrow_unchanged(text, Cow::Owned(result));
    }
    let mut done = true;
    for c in it: text.chars()
        invariant
            it.seq() == text@,
            vstd::utf8::is_ascii_chars(text@),
            done <==> is_uncased(text@.subrange(0, it.index() as int)),
    {
        let ghost i = it.index() as int;
        assert(c == text@[i]);
        let keeps = !is_removed(c) && (!is_bert_whitespace(c) || c == ' ') && lower_ascii(c) == c;
        proof {
            let (old, new) = (text@.subrange(0, i), text@.subrange(0, i + 1));
            assert(new[i] == c);
            assert(keeps <==> uncased_char(c) == seq![c]) by {
                assert(seq![' '][0] == ' ' && seq![c][0] == c && seq![ascii_lowercase(c)][0]
                    == ascii_lowercase(c));
            }
            assert(is_uncased(new) <==> is_uncased(old) && keeps) by {
                if is_uncased(new) {
                    assert forall|j: int| 0 <= j < old.len() implies uncased_char(
                        #[trigger] old[j],
                    ) == seq![old[j]] by {
                        assert(old[j] == new[j]);
                    }
                }
                if is_uncased(old) && keeps {
                    assert forall|j: int| 0 <= j < new.len() implies uncased_char(
                        #[trigger] new[j],
                    ) == seq![new[j]] by {
                        if j < i {
                            assert(old[j] == new[j]);
                        }
                    }
                }
            }
        }
        done = done && keeps;
    }
    assert(text@.subrange(0, text@.len() as int) =~= text@);
    if done {
        proof {
            lemma_uncased(text@);
        }
        return Cow::Borrowed(text);
    }
    push_uncased(&mut result, text);
    borrow_unchanged(text, Cow::Owned(result))
}

// ---- metaspace ----

/// The metaspace character, U+2581.
pub const METASPACE: char = '\u{2581}';

/// A text with its spaces turned into metaspaces.
pub open spec fn metaspaced(s: Seq<char>) -> Seq<char> {
    s.map_values(
        |c: char|
            if c == ' ' {
                METASPACE
            } else {
                c
            },
    )
}

/// The text starts with whitespace.
pub open spec fn space_led(s: Seq<char>) -> bool {
    s.len() > 0 && util::char_is_whitespace(s[0])
}

/// A text with its spaces turned into metaspaces, and one in front unless it
/// starts with whitespace.
pub open spec fn metaspaced_if_not_space_led(s: Seq<char>) -> Seq<char> {
    if space_led(s) {
        metaspaced(s)
    } else {
        seq![METASPACE] + metaspaced(s)
    }
}

/// Bytes in which the needle does not occur are kept.
pub proof fn lemma_kept(h: Seq<u8>, needle: Seq<u8>, rep: Seq<u8>, i: int, j: int)
    requires
        0 <= i <= j <= h.len(),
        needle.len() > 0,
        forall|k: int| i <= k < j ==> !replace::occurs_at(h, needle, k),
    ensures
        replace::replaced_from(h, needle, rep, i) == h.subrange(i, j) + replace::replaced_from(
            h,
            needle,
            rep,
            j,
        ),
    decreases j - i,
{
    if i < j {
        lemma_kept(h, needle, rep, i + 1, j);
        assert(!replace::occurs_at(h, needle, i));
        assert(seq![h[i]] + (h.subrange(i + 1, j) + replace::replaced_from(h, needle, rep, j))
            =~= h.subrange(i, j) + replace::replaced_from(h, needle, rep, j));
    } else {
        assert(h.subrange(i, j) + replace::replaced_from(h, needle, rep, j)
            =~= replace::replaced_from(h, needle, rep, j));
    }
}

/// The bytes of a character other than the space hold no space.
pub proof fn lemma_no_space_byte(c: char)
    requires
        c != ' ',
    ensures
        forall|i: int| 0 <= i < text::utf8(seq![c]).len() ==> text::utf8(seq![c])[i] != 0x20,
{
    let s = seq![c];
    let b = text::utf8(s);
    vstd::utf8::encode_utf8_valid_utf8(s);
    vstd::utf8::encode_utf8_first_scalar(s);
    assert(s.drop_first() =~= Seq::<char>::empty());
    assert(text::utf8(s.drop_first()) =~= Seq::<u8>::empty());
    assert(b =~= vstd::utf8::encode_scalar(c as u32));
    util::lemma_boundary_ends(b);
    util::lemma_after(b, 0);
    assert(util::tail(b, 0) =~= b);
    assert forall|i: int| 0 <= i < b.len() implies b[i] != 0x20 by {
        if b[0] >= 0x80 && i > 0 {
            assert(vstd::utf8::is_continuation_byte(b[i]));
        }
    }
}

/// Replacing the space byte by the bytes of the metaspace is replacing the
/// space by the metaspace, from the character `k` on.
proof fn lemma_replace_spaces(s: Seq<char>, k: int)
    requires
        0 <= k <= s.len(),
    ensures
        replace::replaced_from(
            text::utf8(s),
            seq![0x20u8],
            text::utf8(seq![METASPACE]),
            text::utf8(s.subrange(0, k)).len() as int,
        ) == text::utf8(metaspaced(s).subrange(k, s.len() as int)),
    decreases s.len() - k,
{
    let h = text::utf8(s);
    let (n, rep) = (seq![0x20u8], text::utf8(seq![METASPACE]));
    let p = text::utf8(s.subrange(0, k)).len() as int;
    let m = metaspaced(s);
    assert(s.subrange(0, k) + s.subrange(k, s.len() as int) =~= s);
    text::lemma_utf8_concat(s.subrange(0, k), s.subrange(k, s.len() as int));
    if k < s.len() {
        let c = s[k];
        let cb = text::utf8(seq![c]);
        assert(s.subrange(0, k + 1) =~= s.subrange(0, k).push(c));
        text::lemma_utf8_push(s.subrange(0, k), c);
        let q = text::utf8(s.subrange(0, k + 1)).len() as int;
        assert(s.subrange(k, s.len() as int) =~= seq![c] + s.subrange(k + 1, s.len() as int));
        text::lemma_utf8_concat(seq![c], s.subrange(k + 1, s.len() as int));
        assert(h.subrange(p, q) =~= cb);
        lemma_replace_spaces(s, k + 1);
        assert(m.subrange(k, s.len() as int) =~= seq![m[k]] + m.subrange(k + 1, s.len() as int));
        text::lemma_utf8_concat(seq![m[k]], m.subrange(k + 1, s.len() as int));
        if c == ' ' {
            text::lemma_utf8_ascii(' ');
            assert(h.subrange(p, p + 1) =~= n);
            assert(replace::occurs_at(h, n, p));
        } else {
            lemma_no_space_byte(c);
            assert forall|j: int| p <= j < q implies !replace::occurs_at(h, n, j) by {
                assert(h[j] == cb[j - p]);
                if replace::occurs_at(h, n, j) {
                    assert(h.subrange(j, j + 1)[0] == h[j]);
                }
            }
            lemma_kept(h, n, rep, p, q);
        }
    } else {
        assert(s.subrange(k, s.len() as int) =~= Seq::<char>::empty());
        assert(s.subrange(0, k) =~= s);
        assert(m.subrange(k, s.len() as int) =~= Seq::<char>::empty());
        assert(replace::replaced_from(h, n, rep, p) =~= text::utf8(Seq::<char>::empty()));
    }
}

/// A text without spaces has no metaspaces put in, and its bytes hold no space.
proof fn lemma_no_space(s: Seq<char>)
    ensures
        metaspaced(s) == s <==> !s.contains(' '),
        s.contains(' ') <==> exists|j: int| replace::occurs_at(text::utf8(s), seq![0x20u8], j),
{
    let (h, n) = (text::utf8(s), seq![0x20u8]);
    if s.contains(' ') {
        let k = choose|k: int| 0 <= k < s.len() && s[k] == ' ';
        assert(metaspaced(s)[k] == METASPACE);
        let (x, y) = (s.subrange(0, k), s.subrange(k + 1, s.len() as int));
        assert(s =~= x + (seq![' '] + y));
        text::lemma_utf8_concat(x, seq![' '] + y);
        text::lemma_utf8_concat(seq![' '], y);
        text::lemma_utf8_ascii(' ');
        let p = text::utf8(x).len() as int;
        assert(h.subrange(p, p + 1) =~= n);
        assert(replace::occurs_at(h, n, p));
    } else {
        assert(metaspaced(s) =~= s) by {
            assert forall|i: int| 0 <= i < s.len() implies metaspaced(s)[i] == s[i] by {
                assert(s.contains(s[i]));
            }
        }
        lemma_no_space_bytes(s);
        assert forall|j: int| !replace::occurs_at(h, n, j) by {
            if replace::occurs_at(h, n, j) {
                assert(h.subrange(j, j + 1)[0] == h[j]);
            }
        }
    }
}

/// The bytes of a text without spaces hold no space.
proof fn lemma_no_space_bytes(s: Seq<char>)
    requires
        !s.contains(' '),
    ensures
        forall|i: int| 0 <= i < text::utf8(s).len() ==> text::utf8(s)[i] != 0x20,
    decreases s.len(),
{
    if s.len() > 0 {
        let (d, c) = (s.drop_last(), s.last());
        assert(s =~= d.push(c));
        assert(s.contains(c));
        assert forall|x: char| d.contains(x) implies s.contains(x) by {
            let i = choose|i: int| 0 <= i < d.len() && d[i] == x;
            assert(s[i] == x);
        }
        lemma_no_space_bytes(d);
        lemma_no_space_byte(c);
        text::lemma_utf8_push(d, c);
    }
}

/// Metaspace replace normalization (no prepend): "Hello world" becomes "Hello▁world".
/// Borrowed where the text holds no space.
pub fn metaspace_replace_normalize<'a>(text: &'a str) -> (r: Cow<'a, str>)
    ensures
        r@ == metaspaced(text@),
        r is Borrowed <==> !text@.contains(' '),
        r is Borrowed <==> r@ == text@,
{
    let r = fnr(text, " ", "\u{2581}");
    proof {
        reveal_strlit(" ");
        reveal_strlit("\u{2581}");
        assert(" "@ =~= seq![' ']);
        assert("\u{2581}"@ =~= seq![METASPACE]);
        text::lemma_utf8_ascii(' ');
        lemma_replace_spaces(text@, 0);
        assert(text@.subrange(0, 0) =~= Seq::<char>::empty());
        assert(metaspaced(text@).subrange(0, text@.len() as int) =~= metaspaced(text@));
        text::lemma_utf8_injective(r@, metaspaced(text@));
        lemma_no_space(text@);
    }
    r
}

/// Does the text start with whitespace?
fn starts_with_blank(text: &str) -> (r: bool)
    ensures
        r == space_led(text@),
{
    if text.is_empty() {
        return false;
    }
    let c = text.get_char(0);
    c == ' ' || c == '\t' || c.is_whitespace()
}

/// A metaspace and a text.
fn prepend_metaspace(t: &str) -> (r: String)
    ensures
        r@ == seq![METASPACE] + t@,
{
    let mut out = String::new();
    out.push(METASPACE);
    out.push_str(t);
    assert(out@ =~= seq![METASPACE] + t@);
    out
}

/// Metaspace normalization for SentencePiece tokenizers: prepends `▁` (U+2581)
/// if the text does not start with whitespace, and replaces all spaces with `▁`.
///
/// "Hello world" becomes "▁Hello▁world", "  spaces" becomes "▁▁spaces".
pub fn metaspace_normalize<'a>(text: &'a str) -> (r: Cow<'a, str>)
    ensures
        r@ == metaspaced_if_not_space_led(text@),
        r is Borrowed ==> r@ == text@,
{
    let replaced = metaspace_replace_normalize(text);
    if starts_with_blank(text) {
        replaced
    } else {
        Cow::Owned(prepend_metaspace(cow_str(&replaced)))
    }
}

// ---- SentencePiece ----

/// What a squeezing pass does with a character.
#[derive(Clone, Copy, PartialEq, Eq, Structural)]
pub enum Squeeze {
    /// The character is dropped.
    Drop,
    /// The character counts as whitespace.
    Blank,
    /// The character is kept.
    Keep,
}

/// Whitespace is squeezed, everything else is kept.
pub open spec fn whitespace_squeeze(c: char) -> Squeeze {
    if util::char_is_whitespace(c) {
        Squeeze::Blank
    } else {
        Squeeze::Keep
    }
}

/// Control characters are dropped; whitespace, format characters and the
/// replacement character are squeezed.
pub open spec fn control_squeeze(c: char) -> Squeeze {
    if c == '\0' {
        Squeeze::Drop
    } else if util::in_category(c, 'C', 'c') {
        if c == '\t' || c == '\n' || c == '\r' || c == '\u{0C}' {
            Squeeze::Blank
        } else {
            Squeeze::Drop
        }
    } else if util::in_category(c, 'C', 'f') || c == '\u{FFFD}' || util::char_is_whitespace(c) {
        Squeeze::Blank
    } else {
        Squeeze::Keep
    }
}

/// What the pass does with a character, with control characters or without.
pub open spec fn squeeze_of(controls: bool, c: char) -> Squeeze {
    if controls {
        control_squeeze(c)
    } else {
        whitespace_squeeze(c)
    }
}

/// The text from `i` on with every run of whitespace turned into one space;
/// right behind whitespace (`blank`) it starts with none.
pub open spec fn squeezed_from(controls: bool, s: Seq<char>, i: int, blank: bool) -> Seq<char>
    decreases s.len() - i,
{
    if !(0 <= i < s.len()) {
        seq![]
    } else {
        match squeeze_of(controls, s[i]) {
            Squeeze::Drop => squeezed_from(controls, s, i + 1, blank),
            Squeeze::Blank => if blank {
                squeezed_from(controls, s, i + 1, true)
            } else {
                seq![' '] + squeezed_from(controls, s, i + 1, true)
            },
            Squeeze::Keep => seq![s[i]] + squeezed_from(controls, s, i + 1, false),
        }
    }
}

/// The text without a space at its end.
pub open spec fn without_trailing_space(s: Seq<char>) -> Seq<char> {
    if s.len() > 0 && s.last() == ' ' {
        s.drop_last()
    } else {
        s
    }
}

/// The words of a text with one space between them.
pub open spec fn collapsed(controls: bool, s: Seq<char>) -> Seq<char> {
    without_trailing_space(squeezed_from(controls, s, 0, true))
}

/// What the pass does with a character.
fn squeeze_char(controls: bool, c: char) -> (r: Squeeze)
    ensures
        r == squeeze_of(controls, c),
{
    if !controls {
        if c.is_whitespace() {
            Squeeze::Blank
        } else {
            Squeeze::Keep
        }
    } else if c == '\0' {
        Squeeze::Drop
    } else if is_category(c, 0x43, 0x63) {
        if c == '\t' || c == '\n' || c == '\r' || c == '\u{0C}' {
            Squeeze::Blank
        } else {
            Squeeze::Drop
        }
    } else if is_category(c, 0x43, 0x66) || c == '\u{FFFD}' || c.is_whitespace() {
        Squeeze::Blank
    } else {
        Squeeze::Keep
    }
}

/// Squeeze a text and strip it.
fn collapse(controls: bool, text: &str) -> (r: String)
    ensures
        r@ == collapsed(controls, text@),
{
    let mut result = String::new();
    let mut blank = true;
    let ghost want = squeezed_from(controls, text@, 0, true);
    assert(want =~= result@ + want);
    for c in it: text.chars()
        invariant
            it.seq() == text@,
            want == result@ + squeezed_from(controls, text@, it.index() as int, blank),
    {
        let ghost before = result@;
        let ghost i = it.index() as int;
        match squeeze_char(controls, c) {
            Squeeze::Drop => {},
            Squeeze::Blank => {
                if !blank {
                    result.push(' ');
                    blank = true;
                }
            },
            Squeeze::Keep => {
                result.push(c);
                blank = false;
            },
        }
        assert(want =~= result@ + squeezed_from(controls, text@, i + 1, blank));
    }
    assert(want =~= result@);
    let n: usize = result.as_str().unicode_len();
    if n > 0 && result.as_str().get_char(n - 1) == ' ' {
        let _ = result.pop();
    }
    result
}

/// Collapse multiple whitespace chars to single space and strip leading/trailing.
pub fn collapse_and_strip_whitespace(text: &str) -> (r: String)
    ensures
        r@ == collapsed(false, text@),
{
    collapse(false, text)
}

/// Collapse whitespace, strip leading/trailing, and handle control/format characters:
/// control characters are removed, format characters and U+FFFD count as whitespace.
pub fn collapse_strip_whitespace_and_controls(text: &str) -> (r: String)
    ensures
        r@ == collapsed(true, text@),
{
    collapse(true, text)
}

/// SentencePiece normalization of a text: NFKC, words separated by single
/// metaspaces, and a metaspace in front. The empty text stays empty.
pub open spec fn sentencepiece_form(s: Seq<char>) -> Seq<char> {
    if s.len() == 0 {
        s
    } else {
        seq![METASPACE] + metaspaced(collapsed(true, nfkc_form(s)))
    }
}

/// SentencePiece normalization with NFKC.
///
/// "  Hello   world\n" becomes "▁Hello▁world".
pub fn sentencepiece_normalize<'a>(text: &'a str) -> (r: Cow<'a, str>)
    ensures
        r@ == sentencepiece_form(text@),
        r is Borrowed ==> r@ == text@,
{
    if text.is_empty() {
        return Cow::Borrowed(text);
    }
    let normalized = nfkc(text);
    let words = collapse_strip_whitespace_and_controls(cow_str(&normalized));
    let spaced = metaspace_replace_normalize(words.as_str());
    Cow::Owned(prepend_metaspace(cow_str(&spaced)))
}

/// A decomposed text without marks and controls.
pub open spec fn stripped(s: Seq<char>) -> Seq<char>
    decreases s.len(),
{
    if s.len() == 0 {
        seq![]
    } else if combining_mark(s.last()) || removed(s.last()) {
        stripped(s.drop_last())
    } else {
        stripped(s.drop_last()).push(s.last())
    }
}

/// A text in lower case, with metaspaces for spaces.
pub open spec fn lowercase_metaspaced(s: Seq<char>) -> Seq<char>
    decreases s.len(),
{
    if s.len() == 0 {
        seq![]
    } else {
        lowercase_metaspaced(s.drop_last()) + if s.last() == ' ' {
            seq![METASPACE]
        } else {
            char_lowercase(s.last())
        }
    }
}

/// SentencePiece normalization of a text with NFKD, without accents, in lower case.
pub open spec fn sentencepiece_lowercase_form(s: Seq<char>) -> Seq<char> {
    if s.len() == 0 {
        s
    } else {
        seq![METASPACE] + lowercase_metaspaced(collapsed(false, stripped(nfkd_form(s))))
    }
}

/// SentencePiece normalization with NFKD, without accents, in lower case.
///
/// "  Héllo   Wörld\n" becomes "▁hello▁world".
pub fn sentencepiece_lowercase_normalize<'a>(text: &'a str) -> (r: Cow<'a, str>)
    ensures
        r@ == sentencepiece_lowercase_form(text@),
        r is Borrowed ==> r@ == text@,
{
    if text.is_empty() {
        return Cow::Borrowed(text);
    }
    let decomposed = nfkd(text);
    let d = cow_str(&decomposed);
    let mut kept = String::new();
    for c in it: d.chars()
        invariant
            it.seq() == d@,
            kept@ == stripped(d@.subrange(0, it.index() as int)),
    {
        proof {
            lemma_take_next(d@, it.index() as int);
        }
        if !is_combining_mark(c) && !is_removed(c) {
            kept.push(c);
        }
    }
    assert(d@.subrange(0, d@.len() as int) =~= d@);
    let words = collapse_and_strip_whitespace(kept.as_str());
    let w = words.as_str();
    let mut result = String::new();
    result.push(METASPACE);
    assert(result@ =~= seq![METASPACE] + lowercase_metaspaced(w@.subrange(0, 0)));
    for c in it: w.chars()
        invariant
            it.seq() == w@,
            result@ == seq![METASPACE] + lowercase_metaspaced(w@.subrange(0, it.index() as int)),
    {
        let ghost i = it.index() as int;
        proof {
            lemma_take_next(w@, i);
        }
        if c == ' ' {
            result.push(METASPACE);
        } else {
            let lower = to_lowercase(c);
            push_chars(&mut result, &lower);
        }
        assert(result@ =~= seq![METASPACE] + lowercase_metaspaced(w@.subrange(0, i + 1)));
    }
    assert(w@.subrange(0, w@.len() as int) =~= w@);
    Cow::Owned(result)
}

/// The text from `i` on with every run of spaces turned into one metaspace;
/// right behind a space (`blank`) it starts with none.
pub open spec fn space_runs_from(s: Seq<char>, i: int, blank: bool) -> Seq<char>
    decreases s.len() - i,
{
    if !(0 <= i < s.len()) {
        seq![]
    } else if s[i] != ' ' {
        seq![s[i]] + space_runs_from(s, i + 1, false)
    } else if blank {
        space_runs_from(s, i + 1, true)
    } else {
        seq![METASPACE] + space_runs_from(s, i + 1, true)
    }
}

/// The characters that a charsmap makes of a text.
pub open spec fn charsmapped(m: PrecompiledCharsmap, s: Seq<char>) -> Seq<char> {
    vstd::utf8::decode_utf8(m.normal_form(text::utf8(s)))
}

/// SentencePiece normalization with a charsmap. With whitespace split: words
/// with a metaspace in front of each. Without: runs of spaces turned into one
/// metaspace, nothing stripped, and a metaspace in front unless the text
/// starts with a space or metaspace.
pub open spec fn precompiled_form(m: PrecompiledCharsmap, split: bool, s: Seq<char>) -> Seq<char> {
    let t = charsmapped(m, s);
    if s.len() == 0 {
        s
    } else if split {
        seq![METASPACE] + metaspaced(collapsed(false, t))
    } else if t.len() > 0 && (t[0] == ' ' || t[0] == METASPACE) {
        space_runs_from(t, 0, false)
    } else {
        seq![METASPACE] + space_runs_from(t, 0, false)
    }
}

/// SentencePiece normalization using the model's exact `precompiled_charsmap`,
/// followed by the metaspace step matching the model's pre-tokenizer chain.
pub fn sentencepiece_precompiled_normalize<'a>(
    charsmap: &PrecompiledCharsmap,
    whitespace_split: bool,
    text: &'a str,
) -> (r: Cow<'a, str>)
    requires
        charsmap.wf(),
    ensures
        r@ == precompiled_form(*charsmap, whitespace_split, text@),
        r is Borrowed ==> r@ == text@,
{
    if text.is_empty() {
        return Cow::Borrowed(text);
    }
    let mut transformed = String::new();
    proof {
        assert(text::utf8(transformed@) =~= Seq::<u8>::empty());
    }
    charsmap.normalize_into(text, &mut transformed);
    proof {
        assert(text::utf8(transformed@) =~= charsmap.normal_form(text::utf8(text@)));
        vstd::utf8::encode_utf8_decode_utf8(transformed@);
    }
    let t = transformed.as_str();
    if whitespace_split {
        let words = collapse_and_strip_whitespace(t);
        let spaced = metaspace_replace_normalize(words.as_str());
        return Cow::Owned(prepend_metaspace(cow_str(&spaced)));
    }
    let mut result = String::new();
    let mut led = false;
    if !t.is_empty() {
        let c = t.get_char(0);
        led = c == ' ' || c == METASPACE;
    }
    if !led {
        result.push(METASPACE);
    }
    let ghost want = result@ + space_runs_from(t@, 0, false);
    let mut blank = false;
    for c in it: t.chars()
        invariant
            it.seq() == t@,
            want == result@ + space_runs_from(t@, it.index() as int, blank),
    {
        let ghost i = it.index() as int;
        if c == ' ' {
            if !blank {
                result.push(METASPACE);
            }
            blank = true;
        } else {
            result.push(c);
            blank = false;
        }
        assert(want =~= result@ + space_runs_from(t@, i + 1, blank));
    }
    assert(want =~= result@);
    assert(want =~= precompiled_form(*charsmap, whitespace_split, text@));
    Cow::Owned(result)
}

// ---- the normalizer of a tokenizer ----

/// When a metaspace goes in front of the text.
#[derive(Clone, Copy, Debug, PartialEq, Eq, Structural)]
pub enum MetaspacePrepend {
    /// Always.
    Unconditional,
    /// Unless the text starts with whitespace.
    IfNotSpaceLed,
    /// On the first segment of a text only, unless that starts with whitespace.
    FirstSegment,
}

/// Text normalizer configuration.
#[derive(Clone, Debug, PartialEq, Eq)]
pub enum Normalizer {
    /// No normalization (GPT-2, RoBERTa, etc.)
    Absent,
    /// BERT uncased: clean_text, strip_accents and lowercase.
    BertUncased,
    /// BERT cased: clean_text only.
    BertCased,
    /// Unicode NFC normalization.
    Nfc,
    /// SentencePiece Metaspace normalization: a metaspace in front, spaces
    /// replaced with metaspaces.
    Metaspace(MetaspacePrepend),
    /// SentencePiece normalization with NFKC.
    SentencePiece,
    /// SentencePiece normalization with NFKD, without accents, in lower case.
    SentencePieceLowercase,
    /// Replace space with metaspace only (no prepend).
    MetaspaceReplace,
    /// SentencePiece normalization driven by the model's exact
    /// `precompiled_charsmap` blob.
    SentencePiecePrecompiled { charsmap: Arc<PrecompiledCharsmap>, whitespace_split: bool },
}

impl Default for Normalizer {
    fn default() -> (r: Self)
        ensures
            r == Normalizer::Absent,
    {
        Normalizer::Absent
    }
}

impl Normalizer {
    /// A charsmap, where there is one, is a parsed blob.
    pub open spec fn wf(&self) -> bool {
        self matches Normalizer::SentencePiecePrecompiled { charsmap, .. } ==> charsmap.wf()
    }

    /// What the normalizer makes of a segment of a text, the first one or a later one.
    pub open spec fn segment_form(&self, s: Seq<char>, first: bool) -> Seq<char> {
        match *self {
            Normalizer::Absent => s,
            Normalizer::BertCased => cleaned(s),
            Normalizer::BertUncased => bert_uncased(s),
            Normalizer::Nfc => nfc_form(s),
            Normalizer::Metaspace(MetaspacePrepend::Unconditional) => seq![METASPACE] + metaspaced(
                s,
            ),
            Normalizer::Metaspace(MetaspacePrepend::IfNotSpaceLed) => metaspaced_if_not_space_led(
                s,
            ),
            Normalizer::Metaspace(MetaspacePrepend::FirstSegment) => if first {
                metaspaced_if_not_space_led(s)
            } else {
                metaspaced(s)
            },
            Normalizer::SentencePiece => sentencepiece_form(s),
            Normalizer::SentencePieceLowercase => sentencepiece_lowercase_form(s),
            Normalizer::MetaspaceReplace => metaspaced(s),
            Normalizer::SentencePiecePrecompiled { charsmap, whitespace_split } => precompiled_form(
                *charsmap,
                whitespace_split,
                s,
            ),
        }
    }

    /// What the normalizer makes of a whole text.
    pub open spec fn normal_form(&self, s: Seq<char>) -> Seq<char> {
        self.segment_form(s, true)
    }

    /// The normalizer changes no text that it made.
    pub open spec fn settles(&self) -> bool {
        *self is Absent || *self is BertCased || *self is Nfc
    }

    /// Normalize text according to this normalizer's rules.
    ///
    /// Returns `Cow::Borrowed` when no changes are needed. Without a normalizer,
    /// with BERT cased and with NFC, normalizing the result again changes
    /// nothing.
    pub fn normalize<'a>(&self, text: &'a str) -> (r: Cow<'a, str>)
        requires
            self.wf(),
        ensures
            r@ == self.normal_form(text@),
            r is Borrowed <==> r@ == text@,
            self.settles() ==> self.normal_form(r@) == r@,
    {
        self.normalize_segment(text, true)
    }

    /// Normalize a segment of a text, the first one or a later one.
    pub fn normalize_segment<'a>(&self, text: &'a str, first: bool) -> (r: Cow<'a, str>)
        requires
            self.wf(),
        ensures
            r@ == self.segment_form(text@, first),
            r is Borrowed <==> r@ == text@,
            self.settles() ==> self.segment_form(r@, first) == r@,
    {
        let r = self.made_of(text, first);
        proof {
            law_clean_twice(text@);
        }
        borrow_unchanged(text, r)
    }

    /// What the normalizer makes of a segment.
    fn made_of<'a>(&self, text: &'a str, first: bool) -> (r: Cow<'a, str>)
        requires
            self.wf(),
        ensures
            r@ == self.segment_form(text@, first),
            r is Borrowed ==> r@ == text@,
            *self is Nfc ==> nfc_form(r@) == r@,
    {
        match self {
            Normalizer::Absent => Cow::Borrowed(text),
            Normalizer::BertCased => clean_text(text),
            Normalizer::BertUncased => bert_uncased_normalize(text),
            Normalizer::Nfc => nfc(text),
            Normalizer::Metaspace(MetaspacePrepend::Unconditional) => {
                let spaced = metaspace_replace_normalize(text);
                Cow::Owned(prepend_metaspace(cow_str(&spaced)))
            },
            Normalizer::Metaspace(MetaspacePrepend::IfNotSpaceLed) => metaspace_normalize(text),
            Normalizer::Metaspace(MetaspacePrepend::FirstSegment) => if first {
                metaspace_normalize(text)
            } else {
                metaspace_replace_normalize(text)
            },
            Normalizer::SentencePiece => sentencepiece_normalize(text),
            Normalizer::SentencePieceLowercase => sentencepiece_lowercase_normalize(text),
            Normalizer::MetaspaceReplace => metaspace_replace_normalize(text),
            Normalizer::SentencePiecePrecompiled { charsmap, whitespace_split } => {
                sentencepiece_precompiled_normalize(charsmap, *whitespace_split, text)
            },
        }
    }

    /// Check if this normalizer leaves every text as it is.
    pub fn is_identity(&self) -> (r: bool)
        ensures
            r == (*self is Absent),
            r ==> forall|s: Seq<char>, first: bool| self.segment_form(s, first) == s,
    {
        match self {
            Normalizer::Absent => true,
            _ => false,
        }
    }
}

} // verus!
