//! Which pretokenizer a tokenizer file gets: what the patterns of the file say
//! of words and numbers is what the pretokenizer does.
use crate::hf::json;
use crate::hf::json::Json;
use crate::hf::pretokenizer;
use crate::laws::pieces;
use crate::laws::pieces::{all, capital, digit, mark, small};
use crate::laws::pretokenizers;
use crate::laws::pretokenizers::{by_ones, by_threes, two, whole};
use crate::pretok::{pretokenizer_of, Pretokenizer};
use crate::text;
use vstd::prelude::*;
use vstd::utf8::*;

verus! {

// ---- JSON ----

/// The object has this value under the key: its last entry with the key.
pub open spec fn has_entry(v: Seq<(String, Json)>, key: Seq<char>, x: Json) -> bool {
    exists|i: int|
        #![trigger v[i]]
        {
            &&& 0 <= i < v.len()
            &&& v[i].0@ == key
            &&& v[i].1 == x
            &&& forall|k: int| i < k < v.len() ==> (#[trigger] v[k]).0@ != key
        }
}

proof fn lemma_last(v: Seq<(String, Json)>, n: int, i: int, key: Seq<char>)
    requires
        0 <= i < n <= v.len(),
        v[i].0@ == key,
        forall|k: int| i < k < n ==> (#[trigger] v[k]).0@ != key,
    ensures
        json::last_with_key(v, n, key) == Some(v[i].1),
    decreases n,
{
    if i < n - 1 {
        assert(v[n - 1].0@ != key);
        lemma_last(v, n - 1, i, key);
    }
}

proof fn lemma_none(v: Seq<(String, Json)>, n: int, key: Seq<char>)
    requires
        0 <= n <= v.len(),
        forall|k: int| 0 <= k < n ==> (#[trigger] v[k]).0@ != key,
    ensures
        json::last_with_key(v, n, key) is None,
    decreases n,
{
    if n > 0 {
        assert(v[n - 1].0@ != key);
        lemma_none(v, n - 1, key);
    }
}

/// The last entry of an object with a key counts; where there is none, or no
/// object, there is no value.
pub proof fn law_last_entry_counts(v: Vec<(String, Json)>, key: Seq<char>, x: Json)
    ensures
        has_entry(v@, key, x) ==> json::at(Some(Json::Object(v)), key) == Some(x),
        (forall|k: int| 0 <= k < v@.len() ==> (#[trigger] v@[k]).0@ != key) ==> json::at(
            Some(Json::Object(v)),
            key,
        ) is None,
        json::at(Some(Json::Null), key) is None,
        json::at(None, key) is None,
{
    if has_entry(v@, key, x) {
        let i = choose|i: int|
            #![trigger v@[i]]
            {
                &&& 0 <= i < v@.len()
                &&& v@[i].0@ == key
                &&& v@[i].1 == x
                &&& forall|k: int| i < k < v@.len() ==> (#[trigger] v@[k]).0@ != key
            };
        lemma_last(v@, v@.len() as int, i, key);
    }
    if forall|k: int| 0 <= k < v@.len() ==> (#[trigger] v@[k]).0@ != key {
        lemma_none(v@, v@.len() as int, key);
    }
}

// ---- patterns ----

/// The text has this part in it.
pub open spec fn has(p: Seq<char>, part: Seq<char>) -> bool {
    exists|i: int, j: int| 0 <= i <= j <= p.len() && #[trigger] p.subrange(i, j) == part
}

/// A part that stands in a text is found by its bytes, and only such a part.
pub proof fn law_parts_are_found(p: Seq<char>, part: Seq<char>)
    requires
        part.len() > 0,
        is_ascii_chars(part),
    ensures
        text::contains(text::utf8(p), text::utf8(part)) <==> has(p, part),
{
    let b = text::utf8(p);
    let n = text::utf8(part);
    is_ascii_chars_encode_utf8(part);
    encode_utf8_valid_utf8(p);
    if has(p, part) {
        let (i, j) = choose|i: int, j: int|
            0 <= i <= j <= p.len() && #[trigger] p.subrange(i, j) == part;
        let x = p.subrange(0, i);
        let y = p.subrange(j, p.len() as int);
        assert(p =~= x + part + y);
        text::lemma_utf8_concat(x, part);
        text::lemma_utf8_concat(x + part, y);
        let k = text::utf8(x).len() as int;
        assert(b.subrange(k, k + n.len()) =~= n);
        assert(text::stands_at(b, n, k));
    }
    if text::contains(b, n) {
        let i = choose|i: int| #[trigger] text::stands_at(b, n, i);
        assert(b[i] == b.subrange(i, i + n.len())[0]);
        assert(n[0] == part[0] as u8);
        assert(b[i] < 0x80);
        text::lemma_lead_is_boundary(b, i);
        let l = b.subrange(0, i);
        let r = b.subrange(i, b.len() as int);
        is_char_boundary_iff_not_is_continuation_byte(b, i);
        valid_utf8_split(b, i);
        decode_utf8_split(b, i);
        encode_utf8_decode_utf8(p);
        let x = decode_utf8(l);
        let q = decode_utf8(r);
        decode_utf8_encode_utf8(r);
        assert(p == x + q);
        assert(r.subrange(0, n.len() as int) =~= n);
        lemma_prefix(q, part);
        let k = x.len() as int;
        assert(p.subrange(k, k + part.len()) =~= part) by {
            assert forall|m: int| 0 <= m < part.len() implies p[k + m] == part[m] by {
                assert(q.subrange(0, part.len() as int)[m] == q[m]);
            }
        }
    }
}

/// A text whose bytes start as those of an ASCII text starts with that text.
proof fn lemma_prefix(q: Seq<char>, part: Seq<char>)
    requires
        is_ascii_chars(part),
        part.len() <= text::utf8(q).len(),
        text::utf8(q).subrange(0, part.len() as int) == text::utf8(part),
    ensures
        part.len() <= q.len(),
        q.subrange(0, part.len() as int) == part,
    decreases part.len(),
{
    is_ascii_chars_encode_utf8(part);
    if part.len() == 0 {
        assert(q.subrange(0, 0) =~= part);
    } else {
        let b = text::utf8(q);
        let e = Seq::<char>::empty();
        assert(q.len() > 0) by {
            if q.len() == 0 {
                assert(b =~= Seq::<u8>::empty());
            }
        }
        assert(e + q =~= q);
        assert(text::utf8(e) =~= Seq::<u8>::empty());
        pieces::lemma_at(e, q);
        assert(b[0] == b.subrange(0, part.len() as int)[0]);
        assert(b[0] == part[0] as u8);
        char_u32_cast(q[0], part[0] as u32);
        assert(q[0] == part[0]);
        let q2 = q.drop_first();
        let part2 = part.drop_first();
        assert(is_ascii_chars(part2));
        is_ascii_chars_encode_utf8(part2);
        assert(e.push(q[0]) + q2 =~= q);
        text::lemma_utf8_concat(e.push(q[0]), q2);
        let b2 = text::utf8(q2);
        assert(b2 =~= b.subrange(1, b.len() as int));
        assert(b2.subrange(0, part2.len() as int) =~= text::utf8(part2)) by {
            assert forall|i: int| 0 <= i < part2.len() implies b2[i] == text::utf8(part2)[i] by {
                assert(b2[i] == b.subrange(0, part.len() as int)[i + 1]);
                assert(text::utf8(part)[i + 1] == part[i + 1] as u8);
                assert(text::utf8(part2)[i] == part2[i] as u8);
            }
        }
        lemma_prefix(q2, part2);
        assert(q.subrange(0, part.len() as int) =~= part) by {
            assert forall|i: int| 0 <= i < part.len() implies q[i] == part[i] by {
                if i > 0 {
                    assert(q[i] == q2.subrange(0, part2.len() as int)[i - 1]);
                }
            }
        }
    }
}

// ---- stages ----

/// The stage splits texts by this pattern.
pub open spec fn splits_by(stage: Json, p: Seq<char>) -> bool {
    &&& json::type_of(Some(stage)) == Some("Split"@)
    &&& json::text_of(json::at(json::at(Some(stage), "pattern"@), "Regex"@)) == Some(p)
}

/// The pattern tells letters by their case.
pub open spec fn tells_case(p: Seq<char>) -> bool {
    has(p, "\\p{Lu}"@) || has(p, "\\p{Lt}"@) || has(p, "\\p{Ll}"@)
}

/// The pattern makes words of letters and marks.
pub open spec fn joins_marks(p: Seq<char>) -> bool {
    has(p, "[\\p{L}\\p{M}]+"@)
}

/// The pattern says what a word is.
pub open spec fn names_words(p: Seq<char>) -> bool {
    tells_case(p) || joins_marks(p) || has(p, "\\p{L}+"@) || has(p, "(?i:'s|'t|'re"@)
}

/// The pattern takes numbers in groups, as in `\p{N}{1,3}`.
pub open spec fn groups_numbers(p: Seq<char>) -> bool {
    has(p, "\\p{N}{"@)
}

/// The pattern takes numbers one by one: `\p{N}` is one of its alternatives.
pub open spec fn single_numbers(p: Seq<char>) -> bool {
    has(p, "\\p{N}|"@)
}

/// The stage is the first to say what a word is, by the pattern `p`.
pub open spec fn first_words(v: Seq<Json>, k: int, p: Seq<char>) -> bool {
    &&& 0 <= k < v.len()
    &&& splits_by(v[k], p)
    &&& names_words(p)
    &&& forall|i: int, q: Seq<char>|
        0 <= i < k && #[trigger] splits_by(v[i], q) ==> !names_words(q)
}

/// No stage says what a word is.
pub open spec fn no_words(v: Seq<Json>) -> bool {
    forall|i: int, q: Seq<char>|
        0 <= i < v.len() && #[trigger] splits_by(v[i], q) ==> !names_words(q)
}

/// The file has these stages, one of which turns bytes into characters.
pub open spec fn byte_level_stages(data: Json, v: Seq<Json>) -> bool {
    &&& json::type_of(json::at(Some(data), "pre_tokenizer"@)) == Some("Sequence"@)
    &&& json::list_of(json::at(json::at(Some(data), "pre_tokenizer"@), "pretokenizers"@)) == Some(
        v,
    )
    &&& exists|i: int| 0 <= i < v.len() && json::type_of(Some(#[trigger] v[i])) == Some(
        "ByteLevel"@,
    )
}

proof fn lemma_finds(p: Seq<char>)
    ensures
        pretokenizer::holds(p, "\\p{Lu}"@) <==> has(p, "\\p{Lu}"@),
        pretokenizer::holds(p, "\\p{Lt}"@) <==> has(p, "\\p{Lt}"@),
        pretokenizer::holds(p, "\\p{Ll}"@) <==> has(p, "\\p{Ll}"@),
        pretokenizer::holds(p, "[\\p{L}\\p{M}]+"@) <==> has(p, "[\\p{L}\\p{M}]+"@),
        pretokenizer::holds(p, "\\p{L}+"@) <==> has(p, "\\p{L}+"@),
        pretokenizer::holds(p, "(?i:'s|'t|'re"@) <==> has(p, "(?i:'s|'t|'re"@),
        pretokenizer::holds(p, "\\p{N}{"@) <==> has(p, "\\p{N}{"@),
        pretokenizer::holds(p, "\\p{N}|"@) <==> has(p, "\\p{N}|"@),
{
    reveal_strlit("\\p{Lu}");
    reveal_strlit("\\p{Lt}");
    reveal_strlit("\\p{Ll}");
    reveal_strlit("[\\p{L}\\p{M}]+");
    reveal_strlit("\\p{L}+");
    reveal_strlit("(?i:'s|'t|'re");
    reveal_strlit("\\p{N}{");
    reveal_strlit("\\p{N}|");
    law_parts_are_found(p, "\\p{Lu}"@);
    law_parts_are_found(p, "\\p{Lt}"@);
    law_parts_are_found(p, "\\p{Ll}"@);
    law_parts_are_found(p, "[\\p{L}\\p{M}]+"@);
    law_parts_are_found(p, "\\p{L}+"@);
    law_parts_are_found(p, "(?i:'s|'t|'re"@);
    law_parts_are_found(p, "\\p{N}{"@);
    law_parts_are_found(p, "\\p{N}|"@);
}

proof fn lemma_nothing_found(v: Seq<Json>, n: int, chunked: bool)
    requires
        0 <= n <= v.len(),
        forall|i: int, q: Seq<char>|
            0 <= i < n && #[trigger] splits_by(v[i], q) ==> !names_words(q),
    ensures
        pretokenizer::first_type(pretokenizer::split_patterns(v, n), chunked) is None,
    decreases n,
{
    if n > 0 {
        lemma_nothing_found(v, n - 1, chunked);
        if let Some(q) = pretokenizer::split_pattern(v[n - 1]) {
            assert(splits_by(v[n - 1], q));
            lemma_finds(q);
            let before = pretokenizer::split_patterns(v, n - 1);
            assert(before.push(q).drop_last() =~= before);
        }
    }
}

proof fn lemma_first_found(v: Seq<Json>, n: int, k: int, p: Seq<char>, chunked: bool)
    requires
        first_words(v, k, p),
        k < n <= v.len(),
    ensures
        pretokenizer::first_type(pretokenizer::split_patterns(v, n), chunked)
            == pretokenizer::pattern_type(p, chunked),
        pretokenizer::pattern_type(p, chunked) is Some,
    decreases n,
{
    lemma_finds(p);
    let before = pretokenizer::split_patterns(v, n - 1);
    if n == k + 1 {
        lemma_nothing_found(v, k, chunked);
        assert(pretokenizer::split_pattern(v[k]) == Some(p));
        assert(before.push(p).drop_last() =~= before);
    } else {
        lemma_first_found(v, n - 1, k, p, chunked);
        if let Some(q) = pretokenizer::split_pattern(v[n - 1]) {
            assert(before.push(q).drop_last() =~= before);
        }
    }
}

proof fn lemma_types()
    ensures
        "Sequence"@ != "ByteLevel"@,
        "Split"@ != "ByteLevel"@,
        "Split"@ != "Sequence"@,
{
    reveal_strlit("ByteLevel");
    reveal_strlit("Sequence");
    reveal_strlit("Split");
    assert("ByteLevel"@.len() == 9 && "Sequence"@.len() == 8 && "Split"@.len() == 5);
}

/// The type that is found, where the stage `k` is the first to say what a word is.
proof fn lemma_detected(data: Json, v: Seq<Json>, k: int, p: Seq<char>)
    requires
        byte_level_stages(data, v),
        first_words(v, k, p),
    ensures
        pretokenizer::pattern_type(p, pretokenizer::chunks_digits(v)) == Some(
            pretokenizer::detected(data).0,
        ),
        pretokenizer::detected(data).1 is None,
{
    lemma_types();
    lemma_first_found(v, v.len() as int, k, p, pretokenizer::chunks_digits(v));
}

/// A file whose pattern takes numbers by threes gets a pretokenizer that does
/// so, and one whose pattern takes them one by one gets one that does that.
/// DeepSeek's numbers have a stage of their own.
pub proof fn law_numbers_as_the_pattern_says(
    data: Json,
    v: Seq<Json>,
    k: int,
    p: Seq<char>,
    s: Seq<char>,
)
    requires
        byte_level_stages(data, v),
        first_words(v, k, p),
        s.len() > 0,
        all(s, |c: char| digit(c)),
    ensures
        pretokenizer_of(pretokenizer::detected(data).0) matches Some(t) && {
            &&& groups_numbers(p) ==> t.spans(text::utf8(s)) == by_threes(s.len())
            &&& has(p, "\\p{N}{1,3}"@) ==> t.spans(text::utf8(s)) == by_threes(s.len())
            &&& single_numbers(p) && !tells_case(p) && (forall|i: int, q: Seq<char>|
                0 <= i < v.len() && #[trigger] splits_by(v[i], q) ==> !groups_numbers(q))
                ==> t.spans(text::utf8(s)) == by_ones(s.len())
            &&& joins_marks(p) && (exists|i: int, q: Seq<char>|
                0 <= i < v.len() && #[trigger] splits_by(v[i], q) && groups_numbers(q))
                ==> t.spans(text::utf8(s)) == by_threes(s.len())
        },
{
    lemma_detected(data, v, k, p);
    lemma_finds(p);
    let t = pretokenizer_of(pretokenizer::detected(data).0)->0;
    pretokenizers::law_digits(t, s);
    lemma_one_to_three(p);
    if groups_numbers(p) {
        assert(pretokenizer::split_pattern(v[k]) == Some(p));
        assert(pretokenizer::chunks_digits(v));
    }
    if forall|i: int, q: Seq<char>|
        0 <= i < v.len() && #[trigger] splits_by(v[i], q) ==> !groups_numbers(q) {
        if pretokenizer::chunks_digits(v) {
            let i = choose|i: int|
                0 <= i < v.len() && (pretokenizer::split_pattern(#[trigger] v[i]) matches Some(q)
                    && pretokenizer::holds(q, "\\p{N}{"@));
            let q = pretokenizer::split_pattern(v[i])->0;
            assert(splits_by(v[i], q));
            lemma_finds(q);
        }
        assert(splits_by(v[k], p));
    }
    if exists|i: int, q: Seq<char>|
        0 <= i < v.len() && #[trigger] splits_by(v[i], q) && groups_numbers(q) {
        let (i, q) = choose|i: int, q: Seq<char>|
            0 <= i < v.len() && #[trigger] splits_by(v[i], q) && groups_numbers(q);
        lemma_finds(q);
        assert(pretokenizer::split_pattern(v[i]) == Some(q));
        assert(pretokenizer::chunks_digits(v));
    }
}

/// `\p{N}{1,3}` takes numbers in groups.
proof fn lemma_one_to_three(p: Seq<char>)
    ensures
        has(p, "\\p{N}{1,3}"@) ==> groups_numbers(p),
{
    reveal_strlit("\\p{N}{1,3}");
    reveal_strlit("\\p{N}{");
    if has(p, "\\p{N}{1,3}"@) {
        let (i, j) = choose|i: int, j: int|
            0 <= i <= j <= p.len() && #[trigger] p.subrange(i, j) == "\\p{N}{1,3}"@;
        assert("\\p{N}{1,3}"@.len() == 10 && "\\p{N}{"@.len() == 6);
        assert(p.subrange(i, i + 6) =~= "\\p{N}{"@) by {
            assert forall|m: int| 0 <= m < 6 implies p[i + m] == "\\p{N}{"@[m] by {
                assert(p.subrange(i, j)[m] == p[i + m]);
            }
        }
    }
}

/// A file whose pattern tells letters by their case, and no other, gets a
/// pretokenizer that breaks words at their capitals.
pub proof fn law_case_as_the_pattern_says(
    data: Json,
    v: Seq<Json>,
    k: int,
    p: Seq<char>,
    a: Seq<char>,
    u: Seq<char>,
)
    requires
        byte_level_stages(data, v),
        first_words(v, k, p),
        a.len() > 0,
        all(a, |c: char| small(c)),
        u.len() > 0,
        all(u, |c: char| capital(c)),
    ensures
        pretokenizer_of(pretokenizer::detected(data).0) matches Some(t) && {
            &&& tells_case(p) ==> two(t, a, u)
            &&& !tells_case(p) ==> whole(t, a + u)
        },
{
    lemma_detected(data, v, k, p);
    lemma_finds(p);
    let t = pretokenizer_of(pretokenizer::detected(data).0)->0;
    pretokenizers::law_capital_inside_a_word(t, a, u);
}

/// A file whose pattern makes words of letters and marks gets a pretokenizer
/// that keeps them together; where the pattern makes words of letters alone,
/// words end in front of marks.
pub proof fn law_marks_as_the_pattern_says(
    data: Json,
    v: Seq<Json>,
    k: int,
    p: Seq<char>,
    a: Seq<char>,
    m: Seq<char>,
)
    requires
        byte_level_stages(data, v),
        first_words(v, k, p),
        a.len() > 0,
        all(a, |c: char| small(c)),
        m.len() > 0,
        all(m, |c: char| mark(c)),
    ensures
        pretokenizer_of(pretokenizer::detected(data).0) matches Some(t) && {
            &&& joins_marks(p) ==> whole(t, a + m)
            &&& !joins_marks(p) && !tells_case(p) ==> t.spans(text::utf8(a + m)).len() > 0
                && t.spans(text::utf8(a + m))[0] == (0int, text::utf8(a).len() as int)
        },
{
    lemma_detected(data, v, k, p);
    lemma_finds(p);
    let t = pretokenizer_of(pretokenizer::detected(data).0)->0;
    pretokenizers::law_marks(t, a, m);
}

/// Where no stage says what a word is, digits are single if a stage asks for
/// that, and else numbers stay whole.
pub proof fn law_numbers_without_a_pattern(data: Json, v: Seq<Json>, s: Seq<char>)
    requires
        byte_level_stages(data, v),
        no_words(v),
        s.len() > 0,
        all(s, |c: char| digit(c)),
    ensures
        pretokenizer_of(pretokenizer::detected(data).0) matches Some(t) && {
            &&& (exists|i: int| 0 <= i < v.len() && json::type_of(Some(#[trigger] v[i])) == Some(
                "Digits"@,
            )) ==> t.spans(text::utf8(s)) == by_ones(s.len())
            &&& !(exists|i: int| 0 <= i < v.len() && json::type_of(Some(#[trigger] v[i])) == Some(
                "Digits"@,
            )) ==> t.spans(text::utf8(s)) == seq![(0int, s.len() as int)]
        },
{
    lemma_types();
    lemma_nothing_found(v, v.len() as int, pretokenizer::chunks_digits(v));
    let t = pretokenizer_of(pretokenizer::detected(data).0)->0;
    pretokenizers::law_digits(t, s);
}

/// The byte-level stage alone asks for GPT-2's pretokenizer.
pub proof fn law_byte_level_is_gpt2(data: Json)
    requires
        json::type_of(json::at(Some(data), "pre_tokenizer"@)) == Some("ByteLevel"@),
    ensures
        pretokenizer_of(pretokenizer::detected(data).0) == Some(Pretokenizer::Gpt2),
        pretokenizer::detected(data).1 is None,
{
}

/// A single split stage, or several without a byte-level stage, ask for no
/// known pretokenizer, and their patterns are kept.
pub proof fn law_unknown_patterns_are_kept(data: Json, p: Seq<char>)
    requires
        json::at(Some(data), "pre_tokenizer"@) matches Some(stage) && splits_by(stage, p),
    ensures
        pretokenizer_of(pretokenizer::detected(data).0) is None,
        pretokenizer::detected(data).1 == Some(p),
{
    lemma_types();
}

/// Patterns are kept in their order, with bars between them.
pub proof fn law_patterns_are_alternatives(a: Seq<Seq<char>>, b: Seq<Seq<char>>, p: Seq<char>)
    requires
        a.len() > 0,
        b.len() > 0,
    ensures
        pretokenizer::alternatives(seq![p]) == p,
        pretokenizer::alternatives(a + b) == pretokenizer::alternatives(a) + seq!['|']
            + pretokenizer::alternatives(b),
    decreases b.len(),
{
    let t = a + b;
    assert(t.last() == b.last());
    assert(t.drop_last() =~= a + b.drop_last());
    if b.len() == 1 {
        assert(a + b.drop_last() =~= a);
        assert(b.last() == b[0]);
    } else {
        law_patterns_are_alternatives(a, b.drop_last(), p);
        assert(pretokenizer::alternatives(t) =~= pretokenizer::alternatives(a) + seq!['|']
            + pretokenizer::alternatives(b));
    }
}

} // verus!
