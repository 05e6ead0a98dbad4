//! Find-and-replace on texts.
use crate::pretokie::util;
use crate::text;
use crate::text::substr;
use std::borrow::Cow;
use vstd::prelude::*;
use vstd::string::*;
use vstd::utf8::*;

verus! {

/// `needle` occurs in `h` at `i`.
pub open spec fn occurs_at(h: Seq<u8>, needle: Seq<u8>, i: int) -> bool {
    0 <= i && i + needle.len() <= h.len() && h.subrange(i, i + needle.len()) == needle
}

/// The occurrences of `needle` in `h` from `i` on, the leftmost first, none
/// overlapping the one before it.
pub open spec fn occurrences(h: Seq<u8>, needle: Seq<u8>, i: int) -> Seq<int>
    decreases h.len() - i,
{
    if needle.len() == 0 || i < 0 || i + needle.len() > h.len() {
        seq![]
    } else if occurs_at(h, needle, i) {
        seq![i] + occurrences(h, needle, i + needle.len())
    } else {
        occurrences(h, needle, i + 1)
    }
}

/// `h` from `i` on, with every occurrence of `needle` replaced.
pub open spec fn replaced_from(h: Seq<u8>, needle: Seq<u8>, rep: Seq<u8>, i: int) -> Seq<u8>
    decreases h.len() - i,
{
    if i < 0 || i >= h.len() {
        seq![]
    } else if needle.len() > 0 && occurs_at(h, needle, i) {
        rep + replaced_from(h, needle, rep, i + needle.len())
    } else {
        seq![h[i]] + replaced_from(h, needle, rep, i + 1)
    }
}

/// `h` with every occurrence of `needle` replaced, from left to right.
pub open spec fn replaced(h: Seq<u8>, needle: Seq<u8>, rep: Seq<u8>) -> Seq<u8> {
    replaced_from(h, needle, rep, 0)
}

/// The needle that a finder looks for.
pub uninterp spec fn finder_needle(f: memchr::memmem::Finder) -> Seq<u8>;

/// Trusted: a `memchr::memmem::Finder`, seen only through its needle.
#[verifier::external_type_specification]
#[verifier::external_body]
pub struct ExFinder<'n>(memchr::memmem::Finder<'n>);

/// Trusted: `memchr::memmem::Finder::new` makes a finder for the needle.
#[verifier::external_body]
fn new_finder<'n>(needle: &'n [u8]) -> (f: memchr::memmem::Finder<'n>)
    ensures
        finder_needle(f) == needle@,
{
    memchr::memmem::Finder::new(needle)
}

/// Trusted: `memchr::memmem::Finder::find` gives the first occurrence.
#[verifier::external_body]
fn find(f: &memchr::memmem::Finder<'_>, h: &[u8]) -> (r: Option<usize>)
    ensures
        match r {
            Some(i) => occurs_at(h@, finder_needle(*f), i as int) && forall|j: int|
                0 <= j < i ==> !occurs_at(h@, finder_needle(*f), j),
            None => forall|j: int| !occurs_at(h@, finder_needle(*f), j),
        },
{
    f.find(h)
}

/// Trusted: `memchr::memmem::Finder::find_iter`, collected, gives the
/// non-overlapping occurrences of a non-empty needle from left to right.
#[verifier::external_body]
fn find_all(f: &memchr::memmem::Finder<'_>, h: &[u8]) -> (r: Vec<usize>)
    requires
        finder_needle(*f).len() > 0,
    ensures
        r@.map_values(|i: usize| i as int) == occurrences(h@, finder_needle(*f), 0),
{
    f.find_iter(h).collect()
}

/// Where the needle does not occur, nothing is replaced.
proof fn lemma_replaced_none(h: Seq<u8>, needle: Seq<u8>, rep: Seq<u8>, i: int)
    requires
        0 <= i <= h.len(),
        forall|j: int| i <= j ==> needle.len() == 0 || !occurs_at(h, needle, j),
    ensures
        replaced_from(h, needle, rep, i) == h.subrange(i, h.len() as int),
    decreases h.len() - i,
{
    if i < h.len() {
        lemma_replaced_none(h, needle, rep, i + 1);
        assert(needle.len() == 0 || !occurs_at(h, needle, i));
        assert(replaced_from(h, needle, rep, i) =~= h.subrange(i, h.len() as int));
    } else {
        assert(replaced_from(h, needle, rep, i) =~= h.subrange(i, h.len() as int));
    }
}

/// Up to the first occurrence the text is kept.
proof fn lemma_replaced_step(h: Seq<u8>, needle: Seq<u8>, rep: Seq<u8>, i: int)
    requires
        0 <= i <= h.len(),
        needle.len() > 0,
    ensures
        ({
            let occ = occurrences(h, needle, i);
            if occ.len() == 0 {
                replaced_from(h, needle, rep, i) == h.subrange(i, h.len() as int)
            } else {
                &&& i <= occ[0]
                &&& occurs_at(h, needle, occ[0])
                &&& occ.drop_first() == occurrences(h, needle, occ[0] + needle.len())
                &&& replaced_from(h, needle, rep, i) == h.subrange(i, occ[0]) + rep
                    + replaced_from(h, needle, rep, occ[0] + needle.len())
            }
        }),
    decreases h.len() - i,
{
    let occ = occurrences(h, needle, i);
    if i + needle.len() > h.len() {
        assert forall|j: int| i <= j implies !occurs_at(h, needle, j) by {}
        lemma_replaced_none(h, needle, rep, i);
    } else if occurs_at(h, needle, i) {
        assert(occ.drop_first() =~= occurrences(h, needle, i + needle.len()));
        assert(h.subrange(i, i) + rep =~= rep);
    } else {
        lemma_replaced_step(h, needle, rep, i + 1);
        if occ.len() == 0 {
            assert(replaced_from(h, needle, rep, i) =~= h.subrange(i, h.len() as int));
        } else {
            assert(replaced_from(h, needle, rep, i) =~= h.subrange(i, occ[0]) + rep + replaced_from(
                h,
                needle,
                rep,
                occ[0] + needle.len(),
            ));
        }
    }
}

/// A text that occurs in a text starts and ends there at boundaries.
proof fn lemma_occurrence_boundaries(h: Seq<u8>, needle: Seq<u8>, i: int)
    requires
        valid_utf8(h),
        valid_utf8(needle),
        needle.len() > 0,
        occurs_at(h, needle, i),
    ensures
        util::boundary(h, i),
        util::boundary(h, i + needle.len()),
{
    util::lemma_boundary_ends(needle);
    util::lemma_after(needle, 0);
    assert(h[i] == h.subrange(i, i + needle.len())[0]);
    text::lemma_lead_is_boundary(h, i);
    let t = util::tail(h, i);
    let n = needle.len() as int;
    assert(t.subrange(0, n) =~= needle);
    assert(t.subrange(n, t.len() as int) =~= util::tail(h, i + n));
    if !valid_utf8(util::tail(h, i + n)) {
        partial_valid_partial_invalid_utf8(t, n);
    }
}

/// `text` with every occurrence of the finder's needle replaced.
fn replace_with<'a>(
    f: &memchr::memmem::Finder<'_>,
    needle: &str,
    text: &'a str,
    replacement: &str,
) -> (r: Cow<'a, str>)
    requires
        finder_needle(*f) == needle.spec_bytes(),
    ensures
        text::utf8(r@) == replaced(text::utf8(text@), text::utf8(needle@), text::utf8(replacement@)),
        r is Borrowed <==> needle@.len() == 0 || text@.len() == 0 || forall|j: int|
            !occurs_at(text::utf8(text@), text::utf8(needle@), j),
{
    let h = text.as_bytes();
    let n = needle.as_bytes();
    let ghost (hb, nb, rb) = (h@, n@, text::utf8(replacement@));
    proof {
        lemma_empty_text(needle@);
        lemma_empty_text(text@);
    }
    if n.len() == 0 || h.len() == 0 {
        proof {
            lemma_replaced_none(hb, nb, rb, 0);
            assert(hb.subrange(0, hb.len() as int) =~= hb);
        }
        return Cow::Borrowed(text);
    }
    let first = find(f, h);
    if first.is_none() {
        proof {
            lemma_replaced_none(hb, nb, rb, 0);
            assert(hb.subrange(0, hb.len() as int) =~= hb);
        }
        return Cow::Borrowed(text);
    }
    proof {
        encode_utf8_valid_utf8(text@);
        encode_utf8_valid_utf8(needle@);
        util::lemma_boundary_ends(hb);
    }
    let positions = find_all(f, h);
    let ghost occ = occurrences(hb, nb, 0);
    assert(occ.subrange(0, occ.len() as int) =~= occ);
    let ghost want = replaced(hb, nb, rb);
    let mut result = String::new();
    let mut last_end: usize = 0;
    let mut k: usize = 0;
    assert(text::utf8(result@) =~= Seq::<u8>::empty());
    while k < positions.len()
        invariant
            h@ == hb,
            n@ == nb,
            hb == text.spec_bytes(),
            nb.len() > 0,
            nb == needle.spec_bytes(),
            valid_utf8(hb),
            valid_utf8(nb),
            rb == text::utf8(replacement@),
            k <= positions.len(),
            occ.len() == positions.len(),
            forall|i: int| 0 <= i < occ.len() ==> positions@[i] as int == #[trigger] occ[i],
            last_end <= hb.len(),
            util::boundary(hb, last_end as int),
            occ.subrange(k as int, occ.len() as int) == occurrences(hb, nb, last_end as int),
            want == text::utf8(result@) + replaced_from(hb, nb, rb, last_end as int),
        decreases positions.len() - k,
    {
        let ghost before = text::utf8(result@);
        let ghost rest = occ.subrange(k as int, occ.len() as int);
        let ghost e0 = last_end as int;
        let pos: usize = positions[k];
        proof {
            lemma_replaced_step(hb, nb, rb, e0);
            assert(rest[0] == occ[k as int]);
            assert(pos as int == rest[0]);
            lemma_occurrence_boundaries(hb, nb, pos as int);
            assert(rest.drop_first() =~= occ.subrange(k + 1, occ.len() as int));
        }
        let kept = substr(text, last_end, pos);
        proof {
            text::lemma_utf8_concat(result@, kept@);
        }
        result.push_str(kept);
        proof {
            text::lemma_utf8_concat(result@, replacement@);
        }
        result.push_str(replacement);
        assert(pos + n.len() <= h.len());
        last_end = pos + n.len();
        k = k + 1;
        proof {
            let tail = replaced_from(hb, nb, rb, last_end as int);
            assert(text::utf8(result@) == before + hb.subrange(e0, pos as int) + rb);
            assert(before + (hb.subrange(e0, pos as int) + rb + tail) =~= text::utf8(result@)
                + tail);
        }
    }
    proof {
        lemma_replaced_step(hb, nb, rb, last_end as int);
        util::lemma_boundary_ends(hb);
    }
    let kept = substr(text, last_end, h.len());
    proof {
        text::lemma_utf8_concat(result@, kept@);
    }
    result.push_str(kept);
    assert(text::utf8(result@) =~= want);
    Cow::Owned(result)
}

/// Only the empty text has no bytes.
proof fn lemma_empty_text(s: Seq<char>)
    ensures
        s.len() == 0 <==> text::utf8(s).len() == 0,
{
    if s.len() > 0 {
        encode_utf8_first_scalar(s);
    }
}

/// Fast find-and-replace: replaces all occurrences of `needle` with
/// `replacement` in `text`. Returns `Cow::Borrowed` when no matches are found.
pub fn fnr<'a>(text: &'a str, needle: &str, replacement: &str) -> (r: Cow<'a, str>)
    ensures
        text::utf8(r@) == replaced(text::utf8(text@), text::utf8(needle@), text::utf8(replacement@)),
        r is Borrowed <==> needle@.len() == 0 || text@.len() == 0 || forall|j: int|
            !occurs_at(text::utf8(text@), text::utf8(needle@), j),
{
    let f = new_finder(needle.as_bytes());
    replace_with(&f, needle, text, replacement)
}

/// Fast find-and-replace with a precomputed finder for repeated searches.
pub struct FnrFinder<'n> {
    needle: &'n str,
    finder: memchr::memmem::Finder<'n>,
}

impl<'n> FnrFinder<'n> {
    /// The text that the finder looks for.
    pub closed spec fn needle(&self) -> Seq<char> {
        self.needle@
    }

    /// The finder looks for the needle.
    pub closed spec fn wf(&self) -> bool {
        finder_needle(self.finder) == self.needle.spec_bytes()
    }

    /// Create a new finder for the given needle.
    pub fn new(needle: &'n str) -> (r: Self)
        ensures
            r.wf(),
            r.needle() == needle@,
    {
        FnrFinder { needle, finder: new_finder(needle.as_bytes()) }
    }

    /// Replace all occurrences of the needle with replacement.
    pub fn replace<'a>(&self, text: &'a str, replacement: &str) -> (r: Cow<'a, str>)
        requires
            self.wf(),
        ensures
            text::utf8(r@) == replaced(
                text::utf8(text@),
                text::utf8(self.needle()),
                text::utf8(replacement@),
            ),
            r is Borrowed <==> self.needle().len() == 0 || text@.len() == 0 || forall|j: int|
                !occurs_at(text::utf8(text@), text::utf8(self.needle()), j),
    {
        replace_with(&self.finder, self.needle, text, replacement)
    }

    /// Check if the needle exists in the text without allocating.
    pub fn contains(&self, text: &str) -> (r: bool)
        requires
            self.wf(),
        ensures
            r == exists|j: int| occurs_at(text::utf8(text@), text::utf8(self.needle()), j),
    {
        let h = text.as_bytes();
        match find(&self.finder, h) {
            Some(i) => {
                assert(occurs_at(text::utf8(text@), text::utf8(self.needle()), i as int));
                true
            },
            None => {
                assert(h@ == text::utf8(text@));
                assert(finder_needle(self.finder) == text::utf8(self.needle()));
                false
            },
        }
    }
}

/// Positions as exact numbers.
pub open spec fn positions(v: Seq<usize>) -> Seq<int> {
    Seq::new(v.len(), |i: int| v[i] as int)
}

/// An occurrence lies in the text.
proof fn lemma_occurrences_lie_in_text(h: Seq<u8>, needle: Seq<u8>, i: int, k: int)
    requires
        0 <= i,
        0 <= k < occurrences(h, needle, i).len(),
    ensures
        occurs_at(h, needle, occurrences(h, needle, i)[k]),
    decreases h.len() - i,
{
    if needle.len() > 0 && i + needle.len() <= h.len() {
        if occurs_at(h, needle, i) {
            if k > 0 {
                lemma_occurrences_lie_in_text(h, needle, i + needle.len(), k - 1);
            }
        } else {
            lemma_occurrences_lie_in_text(h, needle, i + 1, k);
        }
    }
}

/// Where a needle occurs, from left to right, without overlaps.
pub fn find_every(h: &[u8], needle: &[u8]) -> (r: Vec<usize>)
    requires
        needle@.len() > 0,
    ensures
        positions(r@) == occurrences(h@, needle@, 0),
        forall|i: int| 0 <= i < r@.len() ==> occurs_at(h@, needle@, #[trigger] r@[i] as int),
{
    let f = new_finder(needle);
    let r = find_all(&f, h);
    proof {
        let occ = occurrences(h@, needle@, 0);
        assert(r@.map_values(|i: usize| i as int) == occ);
        assert(positions(r@) =~= occ);
        assert forall|i: int| 0 <= i < r@.len() implies occurs_at(
            h@,
            needle@,
            #[trigger] r@[i] as int,
        ) by {
            lemma_occurrences_lie_in_text(h@, needle@, 0, i);
        }
    }
    r
}

} // verus!
