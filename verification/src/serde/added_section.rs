//! The section of added and special tokens.
//!
//! It holds the number of entries, and of each entry its id, its flags, its
//! length and its bytes. An entry that is not in the list of added tokens is
//! there as metadata only.
use crate::added;
use crate::added::AddedTokenSpec;
use crate::bytes;
use crate::bytes::{push_bytes, push_u32, read_u32, to_vec};
use crate::serde::SerdeError;
use crate::text;
use crate::text::same_bytes;
use crate::types::TokenId;
use vstd::prelude::*;
use vstd::slice::*;
use vstd::string::*;
use vstd::utf8::*;

verus! {

/// One entry of the section.
#[verifier::ext_equal]
pub struct Entry {
    pub id: TokenId,
    pub flags: u8,
    pub bytes: Seq<u8>,
}

/// The bit of a special token.
pub const SPECIAL: u8 = 0x01;

/// The bit of an entry that is not looked for.
pub const METADATA_ONLY: u8 = 0x02;

/// The bit of a token that takes the whitespace in front of it.
pub const LSTRIP: u8 = 0x04;

/// The bit of a token that takes the whitespace behind it.
pub const RSTRIP: u8 = 0x08;

/// The bit of a token that is looked for in normalized text.
pub const NORMALIZED: u8 = 0x10;

/// The bit of a token that must stand alone.
pub const SINGLE_WORD: u8 = 0x20;

/// The flags as a number.
pub open spec fn flags_of(
    special: bool,
    lstrip: bool,
    rstrip: bool,
    normalized: bool,
    single_word: bool,
) -> u8 {
    bit_if(special, SPECIAL) | bit_if(lstrip, LSTRIP) | bit_if(rstrip, RSTRIP) | bit_if(
        normalized,
        NORMALIZED,
    ) | bit_if(single_word, SINGLE_WORD)
}

/// A bit that is set or not.
pub open spec fn bit_if(set: bool, bit: u8) -> u8 {
    if set {
        bit
    } else {
        0
    }
}

/// Flags are read as they were written, and none says metadata only.
proof fn lemma_flags(s: bool, l: bool, r: bool, n: bool, w: bool)
    ensures
        ({
            let f = flags_of(s, l, r, n, w);
            &&& (f & SPECIAL != 0) == s
            &&& f & METADATA_ONLY == 0
            &&& (f & LSTRIP != 0) == l
            &&& (f & RSTRIP != 0) == r
            &&& (f & NORMALIZED != 0) == n
            &&& (f & SINGLE_WORD != 0) == w
        }),
{
    let a: u8 = bit_if(s, SPECIAL);
    let b: u8 = bit_if(l, LSTRIP);
    let c: u8 = bit_if(r, RSTRIP);
    let d: u8 = bit_if(n, NORMALIZED);
    let e: u8 = bit_if(w, SINGLE_WORD);
    let f: u8 = a | b | c | d | e;
    assert((f & 1 != 0) == (a == 1) && f & 2 == 0 && (f & 4 != 0) == (b == 4) && (f & 8 != 0) == (c
        == 8) && (f & 16 != 0) == (d == 16) && (f & 32 != 0) == (e == 32)) by (bit_vector)
        requires
            f == a | b | c | d | e,
            a == 0 || a == 1,
            b == 0 || b == 4,
            c == 0 || c == 8,
            d == 0 || d == 16,
            e == 0 || e == 32,
    ;
}

/// A special token: its text and its id.
pub type SpecialView = (Seq<char>, TokenId);

/// What special tokens hold.
pub open spec fn special_views(v: Seq<(String, TokenId)>) -> Seq<SpecialView> {
    Seq::new(v.len(), |i: int| (v[i].0@, v[i].1))
}

/// The token is in the list of special tokens.
pub open spec fn is_listed(specials: Seq<SpecialView>, id: TokenId, b: Seq<u8>) -> bool {
    exists|k: int|
        0 <= k < specials.len() && (#[trigger] specials[k]).1 == id && text::utf8(specials[k].0)
            == b
}

/// The special token is in the list of added tokens.
pub open spec fn is_added(tokens: Seq<added::AddedView>, s: SpecialView) -> bool {
    exists|k: int|
        0 <= k < tokens.len() && (#[trigger] tokens[k]).id == s.1 && tokens[k].bytes == text::utf8(
            s.0,
        )
}

/// The added token is special, or listed as such.
pub open spec fn counts_as_special(t: added::AddedView, specials: Seq<SpecialView>) -> bool {
    t.special || is_listed(specials, t.id, t.bytes)
}

/// The entry of an added token.
pub open spec fn added_entry(t: added::AddedView, specials: Seq<SpecialView>) -> Entry {
    Entry {
        id: t.id,
        flags: flags_of(
            counts_as_special(t, specials),
            t.lstrip,
            t.rstrip,
            t.normalized,
            t.single_word,
        ),
        bytes: t.bytes,
    }
}

/// The entry of a special token that is not an added one.
pub open spec fn metadata_entry(s: SpecialView) -> Entry {
    Entry { id: s.1, flags: 0x03, bytes: text::utf8(s.0) }
}

/// The entries of the first `n` special tokens that are not added ones.
pub open spec fn metadata_entries(
    tokens: Seq<added::AddedView>,
    specials: Seq<SpecialView>,
    n: int,
) -> Seq<Entry>
    decreases n,
{
    if n <= 0 {
        seq![]
    } else {
        let before = metadata_entries(tokens, specials, n - 1);
        if is_added(tokens, specials[n - 1]) {
            before
        } else {
            before.push(metadata_entry(specials[n - 1]))
        }
    }
}

/// The entries of added and special tokens.
pub open spec fn entries_of(tokens: Seq<added::AddedView>, specials: Seq<SpecialView>) -> Seq<
    Entry,
> {
    Seq::new(tokens.len(), |i: int| added_entry(tokens[i], specials)) + metadata_entries(
        tokens,
        specials,
        specials.len() as int,
    )
}

/// The bytes of an entry.
pub open spec fn entry_bytes(e: Entry) -> Seq<u8> {
    bytes::u32_bytes(e.id) + seq![e.flags] + bytes::u32_bytes(e.bytes.len() as u32) + e.bytes
}

/// The bytes of entries, one behind the other.
pub open spec fn entries_bytes(v: Seq<Entry>) -> Seq<u8>
    decreases v.len(),
{
    if v.len() == 0 {
        seq![]
    } else {
        entries_bytes(v.drop_last()) + entry_bytes(v.last())
    }
}

/// The section of these entries.
pub open spec fn section_bytes(v: Seq<Entry>) -> Seq<u8> {
    bytes::u32_bytes(v.len() as u32) + entries_bytes(v)
}

/// The `n` entries from `p` on, or what is wrong with them.
pub open spec fn entries_at(d: Seq<u8>, p: int, n: int) -> Result<Seq<Entry>, SerdeError>
    decreases n,
{
    if n <= 0 {
        Ok(seq![])
    } else if p + 9 > d.len() {
        Err(SerdeError::InvalidData("truncated added-tokens entry"))
    } else {
        let len = bytes::u32_at(d, p + 5) as int;
        if p + 9 + len > d.len() {
            Err(SerdeError::InvalidData("truncated added-tokens bytes"))
        } else {
            let e = Entry {
                id: bytes::u32_at(d, p),
                flags: d[p + 4],
                bytes: d.subrange(p + 9, p + 9 + len),
            };
            match entries_at(d, p + 9 + len, n - 1) {
                Ok(rest) => Ok(seq![e] + rest),
                Err(x) => Err(x),
            }
        }
    }
}

/// The entries of a section, or what is wrong with it.
pub open spec fn entries_in(d: Seq<u8>) -> Result<Seq<Entry>, SerdeError> {
    if d.len() == 0 {
        Ok(seq![])
    } else if d.len() < 4 {
        Err(SerdeError::InvalidData("truncated added-tokens section"))
    } else {
        entries_at(d, 4, bytes::u32_at(d, 0) as int)
    }
}

/// The added token of an entry.
pub open spec fn entry_token(e: Entry) -> added::AddedView {
    added::AddedView {
        id: e.id,
        bytes: e.bytes,
        special: e.flags & SPECIAL != 0,
        lstrip: e.flags & LSTRIP != 0,
        rstrip: e.flags & RSTRIP != 0,
        normalized: e.flags & NORMALIZED != 0,
        single_word: e.flags & SINGLE_WORD != 0,
    }
}

/// The added tokens among entries.
pub open spec fn tokens_of(v: Seq<Entry>) -> Seq<added::AddedView>
    decreases v.len(),
{
    if v.len() == 0 {
        seq![]
    } else if v.last().flags & METADATA_ONLY == 0 {
        tokens_of(v.drop_last()).push(entry_token(v.last()))
    } else {
        tokens_of(v.drop_last())
    }
}

/// The special tokens among entries: those that are texts.
pub open spec fn specials_of(v: Seq<Entry>) -> Seq<SpecialView>
    decreases v.len(),
{
    if v.len() == 0 {
        seq![]
    } else if v.last().flags & SPECIAL != 0 && valid_utf8(v.last().bytes) {
        specials_of(v.drop_last()).push((decode_utf8(v.last().bytes), v.last().id))
    } else {
        specials_of(v.drop_last())
    }
}

// ---- what is read of what was written ----

/// The bytes of entries, the first one in front.
proof fn lemma_entries_front(e: Entry, rest: Seq<Entry>)
    ensures
        entries_bytes(seq![e] + rest) == entry_bytes(e) + entries_bytes(rest),
    decreases rest.len(),
{
    let all = seq![e] + rest;
    if rest.len() == 0 {
        assert(all.drop_last() =~= seq![]);
        assert(entries_bytes(all.drop_last()) =~= seq![]);
        assert(entries_bytes(all) =~= entry_bytes(e) + entries_bytes(rest));
    } else {
        lemma_entries_front(e, rest.drop_last());
        assert(all.drop_last() =~= seq![e] + rest.drop_last());
        assert(entries_bytes(all) =~= entry_bytes(e) + entries_bytes(rest));
    }
}

/// Entries that were written are read.
proof fn lemma_entries(before: Seq<u8>, v: Seq<Entry>)
    requires
        forall|k: int| 0 <= k < v.len() ==> (#[trigger] v[k]).bytes.len() <= u32::MAX,
    ensures
        entries_at(before + entries_bytes(v), before.len() as int, v.len() as int) == Ok::<
            Seq<Entry>,
            SerdeError,
        >(v),
    decreases v.len(),
{
    if v.len() > 0 {
        let e = v[0];
        let rest = v.drop_first();
        assert(v =~= seq![e] + rest);
        lemma_entries_front(e, rest);
        let p = before.len() as int;
        let d = before + entries_bytes(v);
        let id = bytes::u32_bytes(e.id);
        let n = bytes::u32_bytes(e.bytes.len() as u32);
        let tail = entries_bytes(rest);
        bytes::lemma_u32_bytes(e.id);
        bytes::lemma_u32_bytes(e.bytes.len() as u32);
        bytes::lemma_u32_at(before, e.id, seq![e.flags] + n + e.bytes + tail);
        assert(d =~= before + id + (seq![e.flags] + n + e.bytes + tail));
        let mid = before + id + seq![e.flags];
        bytes::lemma_u32_at(mid, e.bytes.len() as u32, e.bytes + tail);
        assert(d =~= mid + n + (e.bytes + tail));
        assert(d[p + 4] == e.flags);
        let q = p + 9 + e.bytes.len();
        assert(d.subrange(p + 9, q) =~= e.bytes);
        let front = before + entry_bytes(e);
        assert(d =~= front + tail);
        assert forall|k: int| 0 <= k < rest.len() implies (#[trigger] rest[k]).bytes.len()
            <= u32::MAX by {
            assert(rest[k] == v[k + 1]);
        }
        lemma_entries(front, rest);
        assert(Entry { id: e.id, flags: e.flags, bytes: d.subrange(p + 9, q) } == e);
    } else {
        assert(v =~= seq![]);
    }
}

/// A section is longer than each of its entries, and than their number.
pub proof fn lemma_section_len(v: Seq<Entry>)
    ensures
        9 * v.len() <= entries_bytes(v).len() <= section_bytes(v).len(),
        forall|k: int| 0 <= k < v.len() ==> (#[trigger] v[k]).bytes.len() <= entries_bytes(v).len(),
    decreases v.len(),
{
    if v.len() > 0 {
        let front = v.drop_last();
        lemma_section_len(front);
        bytes::lemma_u32_bytes(v.last().id);
        bytes::lemma_u32_bytes(v.last().bytes.len() as u32);
        assert forall|k: int| 0 <= k < v.len() implies (#[trigger] v[k]).bytes.len()
            <= entries_bytes(v).len() by {
            if k < front.len() {
                assert(front[k] == v[k]);
            }
        }
    }
}

/// A section that was written is read.
pub proof fn law_entries_are_read_back(v: Seq<Entry>)
    requires
        v.len() <= u32::MAX,
        forall|k: int| 0 <= k < v.len() ==> (#[trigger] v[k]).bytes.len() <= u32::MAX,
    ensures
        entries_in(section_bytes(v)) == Ok::<Seq<Entry>, SerdeError>(v),
{
    let head = bytes::u32_bytes(v.len() as u32);
    bytes::lemma_u32_bytes(v.len() as u32);
    bytes::lemma_u32_at(Seq::<u8>::empty(), v.len() as u32, entries_bytes(v));
    assert(section_bytes(v) =~= Seq::<u8>::empty() + head + entries_bytes(v));
    lemma_entries(head, v);
}

/// An added token that counts as special is special.
pub open spec fn marked(t: added::AddedView, specials: Seq<SpecialView>) -> added::AddedView {
    added::AddedView { special: counts_as_special(t, specials), ..t }
}

/// No added token stands among entries of special tokens alone.
proof fn lemma_metadata_tokens(
    a: Seq<Entry>,
    tokens: Seq<added::AddedView>,
    specials: Seq<SpecialView>,
    n: int,
)
    requires
        0 <= n <= specials.len(),
    ensures
        tokens_of(a + metadata_entries(tokens, specials, n)) == tokens_of(a),
    decreases n,
{
    let m = metadata_entries(tokens, specials, n);
    if n <= 0 {
        assert(a + m =~= a);
    } else {
        lemma_metadata_tokens(a, tokens, specials, n - 1);
        if !is_added(tokens, specials[n - 1]) {
            assert((a + m).drop_last() =~= a + metadata_entries(tokens, specials, n - 1));
            assert((a + m).last().flags == 3u8);
            assert(3u8 & 2u8 != 0) by (bit_vector);
        }
    }
}

/// The added tokens among their entries are themselves, marked as special
/// where they are listed so.
pub proof fn law_added_tokens_are_read_back(
    tokens: Seq<added::AddedView>,
    specials: Seq<SpecialView>,
)
    ensures
        tokens_of(entries_of(tokens, specials)) == Seq::new(
            tokens.len(),
            |i: int| marked(tokens[i], specials),
        ),
{
    let a = Seq::new(tokens.len(), |i: int| added_entry(tokens[i], specials));
    lemma_metadata_tokens(a, tokens, specials, specials.len() as int);
    lemma_added_tokens(tokens, specials, tokens.len() as int);
    assert(a.subrange(0, tokens.len() as int) =~= a);
    assert(Seq::new(tokens.len(), |i: int| marked(tokens[i], specials)) =~= Seq::new(
        tokens.len() as nat,
        |i: int| marked(tokens[i], specials),
    ));
}

proof fn lemma_added_tokens(tokens: Seq<added::AddedView>, specials: Seq<SpecialView>, n: int)
    requires
        0 <= n <= tokens.len(),
    ensures
        ({
            let a = Seq::new(tokens.len(), |i: int| added_entry(tokens[i], specials));
            tokens_of(a.subrange(0, n)) == Seq::new(
                n as nat,
                |i: int| marked(tokens[i], specials),
            )
        }),
    decreases n,
{
    let a = Seq::new(tokens.len(), |i: int| added_entry(tokens[i], specials));
    let want = Seq::new(n as nat, |i: int| marked(tokens[i], specials));
    if n > 0 {
        lemma_added_tokens(tokens, specials, n - 1);
        let s = a.subrange(0, n);
        assert(s.drop_last() =~= a.subrange(0, n - 1));
        let t = tokens[n - 1];
        assert(s.last() == added_entry(t, specials));
        lemma_flags(
            counts_as_special(t, specials),
            t.lstrip,
            t.rstrip,
            t.normalized,
            t.single_word,
        );
        assert(entry_token(s.last()) =~= marked(t, specials));
        assert(tokens_of(s) =~= want);
    } else {
        assert(a.subrange(0, 0) =~= seq![]);
        assert(tokens_of(a.subrange(0, 0)) =~= want);
    }
}

/// A special entry that is a text is one of the special tokens.
proof fn lemma_special_entry(v: Seq<Entry>, k: int)
    requires
        0 <= k < v.len(),
        v[k].flags & SPECIAL != 0,
        valid_utf8(v[k].bytes),
    ensures
        specials_of(v).contains((decode_utf8(v[k].bytes), v[k].id)),
    decreases v.len(),
{
    let x = (decode_utf8(v[k].bytes), v[k].id);
    let front = v.drop_last();
    if k == v.len() - 1 {
        assert(specials_of(v).last() == x);
    } else {
        lemma_special_entry(front, k);
        let j = choose|j: int| 0 <= j < specials_of(front).len() && specials_of(front)[j] == x;
        assert(specials_of(v)[j] == x);
    }
}

/// Where the entry of a special token that is not added stands.
proof fn lemma_metadata_entry(
    tokens: Seq<added::AddedView>,
    specials: Seq<SpecialView>,
    n: int,
    k: int,
) -> (j: int)
    requires
        0 <= k < n <= specials.len(),
        !is_added(tokens, specials[k]),
    ensures
        0 <= j < metadata_entries(tokens, specials, n).len(),
        metadata_entries(tokens, specials, n)[j] == metadata_entry(specials[k]),
    decreases n,
{
    let before = metadata_entries(tokens, specials, n - 1);
    if k == n - 1 {
        before.len() as int
    } else {
        lemma_metadata_entry(tokens, specials, n - 1, k)
    }
}

/// Every special token is among those that are read.
pub proof fn law_special_tokens_are_read_back(
    tokens: Seq<added::AddedView>,
    specials: Seq<SpecialView>,
    k: int,
)
    requires
        0 <= k < specials.len(),
    ensures
        specials_of(entries_of(tokens, specials)).contains(specials[k]),
{
    let s = specials[k];
    let v = entries_of(tokens, specials);
    encode_utf8_decode_utf8(s.0);
    encode_utf8_valid_utf8(s.0);
    if is_added(tokens, s) {
        let i = choose|i: int|
            0 <= i < tokens.len() && (#[trigger] tokens[i]).id == s.1 && tokens[i].bytes
                == text::utf8(s.0);
        let t = tokens[i];
        assert(specials[k].1 == t.id);
        assert(is_listed(specials, t.id, t.bytes));
        lemma_flags(true, t.lstrip, t.rstrip, t.normalized, t.single_word);
        assert(v[i] == added_entry(t, specials));
        lemma_special_entry(v, i);
    } else {
        let j = lemma_metadata_entry(tokens, specials, specials.len() as int, k);
        let i = tokens.len() + j;
        assert(v[i] == metadata_entry(s));
        assert(3u8 & 1u8 != 0) by (bit_vector);
        lemma_special_entry(v, i);
    }
}

/// Where a special token that is read has its entry.
proof fn lemma_special_from(v: Seq<Entry>, j: int) -> (k: int)
    requires
        0 <= j < specials_of(v).len(),
    ensures
        0 <= k < v.len(),
        v[k].flags & SPECIAL != 0,
        valid_utf8(v[k].bytes),
        specials_of(v)[j] == (decode_utf8(v[k].bytes), v[k].id),
    decreases v.len(),
{
    let front = v.drop_last();
    if j < specials_of(front).len() {
        lemma_special_from(front, j)
    } else {
        v.len() - 1
    }
}

/// No two entries are of the same token.
spec fn entries_differ(v: Seq<Entry>) -> bool {
    forall|i: int, j: int|
        0 <= i < j < v.len() ==> (#[trigger] v[i]).id != (#[trigger] v[j]).id || v[i].bytes
            != v[j].bytes
}

/// Of entries that differ, no special token is read twice.
proof fn lemma_specials_differ(v: Seq<Entry>)
    requires
        entries_differ(v),
    ensures
        specials_of(v).no_duplicates(),
    decreases v.len(),
{
    if v.len() > 0 {
        let front = v.drop_last();
        assert forall|i: int, j: int| 0 <= i < j < front.len() implies (#[trigger] front[i]).id != (
        #[trigger] front[j]).id || front[i].bytes != front[j].bytes by {
            assert(front[i] == v[i] && front[j] == v[j]);
        }
        lemma_specials_differ(front);
        let l = v.last();
        if l.flags & SPECIAL != 0 && valid_utf8(l.bytes) {
            let x = (decode_utf8(l.bytes), l.id);
            if specials_of(front).contains(x) {
                let j = choose|j: int|
                    0 <= j < specials_of(front).len() && specials_of(front)[j] == x;
                let k = lemma_special_from(front, j);
                decode_utf8_encode_utf8(l.bytes);
                decode_utf8_encode_utf8(front[k].bytes);
                assert(v[k].id == v[v.len() - 1].id && v[k].bytes == v[v.len() - 1].bytes);
            }
        }
    }
}

/// Which special token an entry of one that is not added stands for.
proof fn lemma_metadata_from(
    tokens: Seq<added::AddedView>,
    specials: Seq<SpecialView>,
    n: int,
    j: int,
) -> (k: int)
    requires
        0 <= n <= specials.len(),
        0 <= j < metadata_entries(tokens, specials, n).len(),
    ensures
        0 <= k < n,
        !is_added(tokens, specials[k]),
        metadata_entries(tokens, specials, n)[j] == metadata_entry(specials[k]),
    decreases n,
{
    if n <= 0 {
        0
    } else if j < metadata_entries(tokens, specials, n - 1).len() {
        lemma_metadata_from(tokens, specials, n - 1, j)
    } else {
        n - 1
    }
}

/// Entries of special tokens that differ differ.
proof fn lemma_metadata_differ(
    tokens: Seq<added::AddedView>,
    specials: Seq<SpecialView>,
    n: int,
)
    requires
        0 <= n <= specials.len(),
        specials.no_duplicates(),
    ensures
        entries_differ(metadata_entries(tokens, specials, n)),
    decreases n,
{
    if n > 0 {
        lemma_metadata_differ(tokens, specials, n - 1);
        let v = metadata_entries(tokens, specials, n);
        let before = metadata_entries(tokens, specials, n - 1);
        assert forall|i: int, j: int| 0 <= i < j < v.len() implies (#[trigger] v[i]).id != (
        #[trigger] v[j]).id || v[i].bytes != v[j].bytes by {
            if j < before.len() {
                assert(before[i] == v[i] && before[j] == v[j]);
            } else {
                let k = lemma_metadata_from(tokens, specials, n - 1, i);
                encode_utf8_decode_utf8(specials[k].0);
                encode_utf8_decode_utf8(specials[n - 1].0);
                assert(specials[k] != specials[n - 1]);
            }
        }
    }
}

/// No two added tokens have the same id and the same bytes.
pub open spec fn tokens_distinct(tokens: Seq<added::AddedView>) -> bool {
    forall|i: int, j: int|
        0 <= i < j < tokens.len() ==> (#[trigger] tokens[i]).id != (#[trigger] tokens[j]).id
            || tokens[i].bytes != tokens[j].bytes
}

/// An added token is special where it is listed as such, and only there.
pub open spec fn specials_agree(
    tokens: Seq<added::AddedView>,
    specials: Seq<SpecialView>,
) -> bool {
    forall|i: int|
        0 <= i < tokens.len() ==> (#[trigger] tokens[i]).special == is_listed(
            specials,
            tokens[i].id,
            tokens[i].bytes,
        )
}

/// Where no token is there twice and the two lists agree on which added tokens
/// are special, the added tokens are read as they were written, and so are the
/// special tokens, in some order, and nothing else.
pub proof fn law_tokens_are_read_back(
    tokens: Seq<added::AddedView>,
    specials: Seq<SpecialView>,
)
    requires
        tokens_distinct(tokens),
        specials.no_duplicates(),
        specials_agree(tokens, specials),
    ensures
        tokens_of(entries_of(tokens, specials)) == tokens,
        specials_of(entries_of(tokens, specials)).to_multiset() == specials.to_multiset(),
{
    let v = entries_of(tokens, specials);
    let n = tokens.len() as int;
    law_added_tokens_are_read_back(tokens, specials);
    assert(tokens_of(v) =~= tokens) by {
        assert forall|i: int| 0 <= i < n implies marked(tokens[i], specials) == tokens[i] by {
            assert(tokens[i].special == is_listed(specials, tokens[i].id, tokens[i].bytes));
        }
    }
    let meta = metadata_entries(tokens, specials, specials.len() as int);
    lemma_metadata_differ(tokens, specials, specials.len() as int);
    assert forall|i: int, j: int| 0 <= i < j < v.len() implies (#[trigger] v[i]).id != (
    #[trigger] v[j]).id || v[i].bytes != v[j].bytes by {
        if j < n {
            assert(v[i] == added_entry(tokens[i], specials));
            assert(v[j] == added_entry(tokens[j], specials));
        } else if i >= n {
            assert(v[i] == meta[i - n] && v[j] == meta[j - n]);
        } else {
            assert(v[i] == added_entry(tokens[i], specials));
            let k = lemma_metadata_from(tokens, specials, specials.len() as int, j - n);
            assert(tokens[i].id != specials[k].1 || tokens[i].bytes != text::utf8(specials[k].0));
        }
    }
    lemma_specials_differ(v);
    let read = specials_of(v);
    assert forall|x: SpecialView| #[trigger] read.contains(x) implies specials.contains(x) by {
        let j = choose|j: int| 0 <= j < read.len() && read[j] == x;
        let i = lemma_special_from(v, j);
        if i < n {
            let t = tokens[i];
            assert(v[i] == added_entry(t, specials));
            lemma_flags(
                counts_as_special(t, specials),
                t.lstrip,
                t.rstrip,
                t.normalized,
                t.single_word,
            );
            assert(is_listed(specials, t.id, t.bytes));
            let k = choose|k: int|
                0 <= k < specials.len() && (#[trigger] specials[k]).1 == t.id && text::utf8(
                    specials[k].0,
                ) == t.bytes;
            encode_utf8_decode_utf8(specials[k].0);
            assert(specials[k] == x);
        } else {
            let k = lemma_metadata_from(tokens, specials, specials.len() as int, i - n);
            encode_utf8_decode_utf8(specials[k].0);
            assert(specials[k] == x);
        }
    }
    assert forall|x: SpecialView| #[trigger] specials.contains(x) implies read.contains(x) by {
        let k = choose|k: int| 0 <= k < specials.len() && specials[k] == x;
        law_special_tokens_are_read_back(tokens, specials, k);
    }
    read.lemma_multiset_has_no_duplicates();
    specials.lemma_multiset_has_no_duplicates();
    read.to_multiset_ensures();
    specials.to_multiset_ensures();
    assert forall|x: SpecialView| #[trigger] read.to_multiset().count(x)
        == specials.to_multiset().count(x) by {
        assert(read.contains(x) == specials.contains(x));
        assert(read.to_multiset().contains(x) == (read.to_multiset().count(x) > 0));
        assert(specials.to_multiset().contains(x) == (specials.to_multiset().count(x) > 0));
    }
    assert(read.to_multiset() =~= specials.to_multiset());
}

/// A section that was written of tokens is read as those tokens.
pub proof fn law_section_is_read_back(
    tokens: Seq<added::AddedView>,
    specials: Seq<SpecialView>,
)
    requires
        tokens_distinct(tokens),
        specials.no_duplicates(),
        specials_agree(tokens, specials),
        entries_of(tokens, specials).len() <= u32::MAX,
        forall|k: int|
            0 <= k < tokens.len() ==> (#[trigger] tokens[k]).bytes.len() <= u32::MAX,
        forall|k: int|
            0 <= k < specials.len() ==> text::utf8((#[trigger] specials[k]).0).len() <= u32::MAX,
    ensures
        ({
            let r = section_result(section_bytes(entries_of(tokens, specials)));
            &&& r is Ok
            &&& r->Ok_0.0 == tokens
            &&& r->Ok_0.1.to_multiset() == specials.to_multiset()
        }),
{
    let v = entries_of(tokens, specials);
    assert forall|k: int| 0 <= k < v.len() implies (#[trigger] v[k]).bytes.len() <= u32::MAX by {
        if k < tokens.len() {
            assert(v[k] == added_entry(tokens[k], specials));
        } else {
            let j = lemma_metadata_from(
                tokens,
                specials,
                specials.len() as int,
                k - tokens.len(),
            );
            assert(text::utf8(specials[j].0).len() <= u32::MAX);
        }
    }
    law_entries_are_read_back(v);
    law_tokens_are_read_back(tokens, specials);
}

// ---- writing ----

/// Is the token in the list of special tokens?
fn listed(specials: &[(String, TokenId)], id: TokenId, b: &[u8]) -> (r: bool)
    ensures
        r == is_listed(special_views(specials@), id, b@),
{
    let mut k: usize = 0;
    while k < specials.len()
        invariant
            k <= specials.len(),
            forall|j: int|
                0 <= j < k ==> !((#[trigger] special_views(specials@)[j]).1 == id && text::utf8(
                    special_views(specials@)[j].0,
                ) == b@),
        decreases specials.len() - k,
    {
        assert(special_views(specials@)[k as int] == (
            specials@[k as int].0@,
            specials@[k as int].1,
        ));
        if specials[k].1 == id && same_bytes(specials[k].0.as_str().as_bytes(), b) {
            return true;
        }
        k = k + 1;
    }
    false
}

/// Is the special token in the list of added tokens?
fn among(tokens: &[AddedTokenSpec], s: &(String, TokenId)) -> (r: bool)
    ensures
        r == is_added(added::models(tokens@), (s.0@, s.1)),
{
    let mut k: usize = 0;
    while k < tokens.len()
        invariant
            k <= tokens.len(),
            forall|j: int|
                0 <= j < k ==> !((#[trigger] added::models(tokens@)[j]).id == s.1 && added::models(
                    tokens@,
                )[j].bytes == text::utf8(s.0@)),
        decreases tokens.len() - k,
    {
        assert(added::models(tokens@)[k as int] == tokens@[k as int].model());
        if tokens[k].id == s.1 && same_bytes(tokens[k].bytes.as_slice(), s.0.as_str().as_bytes()) {
            return true;
        }
        k = k + 1;
    }
    false
}

/// Append an entry.
fn push_entry(out: &mut Vec<u8>, id: TokenId, flags: u8, b: &[u8])
    ensures
        final(out)@ == old(out)@ + entry_bytes(Entry { id, flags, bytes: b@ }),
{
    push_u32(out, id);
    out.push(flags);
    push_u32(out, b.len() as u32);
    push_bytes(out, b);
    assert(out@ =~= old(out)@ + entry_bytes(Entry { id, flags, bytes: b@ }));
}

/// The flags of an added token.
fn token_flags(t: &AddedTokenSpec, special: bool) -> (f: u8)
    ensures
        f == flags_of(special, t.lstrip, t.rstrip, t.normalized, t.single_word),
{
    let a: u8 = if special {
        SPECIAL
    } else {
        0
    };
    let b: u8 = if t.lstrip {
        LSTRIP
    } else {
        0
    };
    let c: u8 = if t.rstrip {
        RSTRIP
    } else {
        0
    };
    let d: u8 = if t.normalized {
        NORMALIZED
    } else {
        0
    };
    let e: u8 = if t.single_word {
        SINGLE_WORD
    } else {
        0
    };
    a | b | c | d | e
}

/// Serialize added and special tokens.
pub fn serialize_added_tokens(tokens: &[AddedTokenSpec], specials: &[(String, TokenId)]) -> (r: Vec<
    u8,
>)
    ensures
        r@ == section_bytes(entries_of(added::models(tokens@), special_views(specials@))),
{
    let ghost t = added::models(tokens@);
    let ghost s = special_views(specials@);
    let ghost all = entries_of(t, s);
    let ghost a = Seq::new(t.len(), |i: int| added_entry(t[i], s));
    let mut body: Vec<u8> = Vec::new();
    let mut i: usize = 0;
    assert(a.subrange(0, 0) =~= seq![]);
    while i < tokens.len()
        invariant
            t == added::models(tokens@),
            s == special_views(specials@),
            a == Seq::new(t.len(), |i: int| added_entry(t[i], s)),
            i <= tokens.len(),
            body@ == entries_bytes(a.subrange(0, i as int)),
        decreases tokens.len() - i,
    {
        let x = &tokens[i];
        assert(t[i as int] == x.model());
        let special = x.special || listed(specials, x.id, x.bytes.as_slice());
        let flags: u8 = token_flags(x, special);
        proof {
            let q = a.subrange(0, i + 1);
            assert(q.drop_last() =~= a.subrange(0, i as int));
            assert(q.last() == (Entry { id: x.id, flags, bytes: x.bytes@ }));
        }
        push_entry(&mut body, x.id, flags, x.bytes.as_slice());
        i = i + 1;
    }
    assert(a.subrange(0, t.len() as int) =~= a);
    let mut count: u128 = tokens.len() as u128;
    let mut k: usize = 0;
    assert(a + metadata_entries(t, s, 0) =~= a);
    while k < specials.len()
        invariant
            t == added::models(tokens@),
            s == special_views(specials@),
            a == Seq::new(t.len(), |i: int| added_entry(t[i], s)),
            k <= specials.len(),
            count == (a + metadata_entries(t, s, k as int)).len() <= tokens@.len() + k,
            tokens@.len() <= usize::MAX,
            body@ == entries_bytes(a + metadata_entries(t, s, k as int)),
        decreases specials.len() - k,
    {
        let x = &specials[k];
        assert(s[k as int] == (x.0@, x.1));
        if !among(tokens, x) {
            proof {
                let q = a + metadata_entries(t, s, k + 1);
                assert(q.drop_last() =~= a + metadata_entries(t, s, k as int));
                assert(q.last() == metadata_entry(s[k as int]));
            }
            push_entry(&mut body, x.1, 0x03, x.0.as_str().as_bytes());
            count = count + 1;
        }
        k = k + 1;
    }
    let mut out: Vec<u8> = Vec::new();
    push_u32(&mut out, count as u32);
    push_bytes(&mut out, body.as_slice());
    assert(out@ =~= section_bytes(all));
    out
}

// ---- reading ----

/// The entries of a section, as added and special tokens.
pub open spec fn section_result(d: Seq<u8>) -> Result<
    (Seq<added::AddedView>, Seq<SpecialView>),
    SerdeError,
> {
    match entries_in(d) {
        Ok(v) => Ok((tokens_of(v), specials_of(v))),
        Err(e) => Err(e),
    }
}

/// Deserialize added and special tokens.
pub fn deserialize_added_tokens(data: &[u8]) -> (r: Result<
    (Vec<AddedTokenSpec>, Vec<(String, TokenId)>),
    SerdeError,
>)
    ensures
        match r {
            Ok(x) => section_result(data@) == Ok::<
                (Seq<added::AddedView>, Seq<SpecialView>),
                SerdeError,
            >((added::models(x.0@), special_views(x.1@))),
            Err(e) => section_result(data@) == Err::<
                (Seq<added::AddedView>, Seq<SpecialView>),
                SerdeError,
            >(e),
        },
{
    let mut tokens: Vec<AddedTokenSpec> = Vec::new();
    let mut specials: Vec<(String, TokenId)> = Vec::new();
    assert(added::models(tokens@) =~= tokens_of(seq![]));
    assert(special_views(specials@) =~= specials_of(seq![]));
    if data.len() == 0 {
        return Ok((tokens, specials));
    }
    if data.len() < 4 {
        return Err(SerdeError::InvalidData("truncated added-tokens section"));
    }
    let ghost d = data@;
    let count: u32 = read_u32(data, 0);
    let ghost mut seen: Seq<Entry> = seq![];
    let mut pos: usize = 4;
    let mut i: u32 = 0;
    proof {
        if let Ok(rest) = entries_at(d, 4, count as int) {
            assert(seen + rest =~= rest);
        }
    }
    while i < count
        invariant
            d == data@,
            i <= count,
            pos <= d.len(),
            added::models(tokens@) == tokens_of(seen),
            special_views(specials@) == specials_of(seen),
            entries_in(d) == match entries_at(d, pos as int, count - i) {
                Ok(rest) => Ok::<Seq<Entry>, SerdeError>(seen + rest),
                Err(x) => Err(x),
            },
        decreases count - i,
    {
        if data.len() - pos < 9 {
            return Err(SerdeError::InvalidData("truncated added-tokens entry"));
        }
        let id: TokenId = read_u32(data, pos);
        let flags: u8 = data[pos + 4];
        let len: usize = read_u32(data, pos + 5) as usize;
        if data.len() - pos - 9 < len {
            return Err(SerdeError::InvalidData("truncated added-tokens bytes"));
        }
        let b = slice_subrange(data, pos + 9, pos + 9 + len);
        let ghost e = Entry { id, flags, bytes: b@ };
        let ghost next = seen.push(e);
        proof {
            assert(next.drop_last() =~= seen);
            if let Ok(rest) = entries_at(d, pos + 9 + len, count - i - 1) {
                assert(seen + (seq![e] + rest) =~= next + rest);
            }
        }
        let special = flags & SPECIAL != 0;
        if flags & METADATA_ONLY == 0 {
            tokens.push(
                AddedTokenSpec {
                    id,
                    bytes: to_vec(b),
                    special,
                    lstrip: flags & LSTRIP != 0,
                    rstrip: flags & RSTRIP != 0,
                    normalized: flags & NORMALIZED != 0,
                    single_word: flags & SINGLE_WORD != 0,
                },
            );
            assert(tokens@.last().model() =~= entry_token(e));
        }
        assert(added::models(tokens@) =~= tokens_of(next));
        if special {
            match core::str::from_utf8(b) {
                Ok(s) => {
                    proof {
                        encode_utf8_decode_utf8(s@);
                    }
                    specials.push((s.to_owned(), id));
                },
                Err(_) => {},
            }
        }
        assert(special_views(specials@) =~= specials_of(next));
        proof {
            seen = next;
        }
        pos = pos + 9 + len;
        i = i + 1;
    }
    assert(seen + Seq::<Entry>::empty() =~= seen);
    Ok((tokens, specials))
}

} // verus!
