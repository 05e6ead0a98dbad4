//! The BERT pretokenizer: whitespace separates pieces and is dropped, every
//! punctuation character is a piece of its own.
use super::mask;
use super::rules;
use super::util;
use super::util::{decode_utf8, is_major_category};
use crate::text::substr;
use vstd::prelude::*;
use vstd::string::*;

verus! {

/// A punctuation character: ASCII punctuation, or `\p{P}`.
pub open spec fn bert_punct(c: char) -> bool {
    let cp = c as u32;
    ||| 0x21 <= cp <= 0x2f
    ||| 0x3a <= cp <= 0x40
    ||| 0x5b <= cp <= 0x60
    ||| 0x7b <= cp <= 0x7e
    ||| util::in_major_category(c, 'P')
}

/// Is `c` a punctuation character?
pub fn is_bert_punct(c: char) -> (r: bool)
    ensures
        r == bert_punct(c),
{
    let cp: u32 = c as u32;
    (0x21 <= cp && cp <= 0x2f) || (0x3a <= cp && cp <= 0x40) || (0x5b <= cp && cp <= 0x60) || (0x7b
        <= cp && cp <= 0x7e) || is_major_category(c, 0x50)
}

/// The end of the word that goes on at `p`: the first whitespace or
/// punctuation character, or the end of the text.
pub open spec fn word_end(b: Seq<u8>, p: int) -> int
    decreases b.len() - p,
{
    if 0 <= p < b.len() && util::after(b, p) <= b.len() && !util::char_is_whitespace(
        util::char_at(b, p),
    ) && !bert_punct(util::char_at(b, p)) {
        word_end(b, util::after(b, p))
    } else {
        p
    }
}

/// The end of the piece that starts at `p`.
pub open spec fn piece_end(b: Seq<u8>, p: int) -> int {
    if bert_punct(util::char_at(b, p)) {
        util::after(b, p)
    } else {
        word_end(b, p)
    }
}

/// The pieces from `p` on, as pairs of a start and an end.
pub open spec fn spans(b: Seq<u8>, p: int) -> Seq<(int, int)>
    decreases b.len() - p,
{
    if !(0 <= p < b.len()) {
        seq![]
    } else if util::char_is_whitespace(util::char_at(b, p)) {
        if util::after(b, p) > b.len() {
            seq![]
        } else {
            spans(b, util::after(b, p))
        }
    } else {
        let e = piece_end(b, p);
        if p < e <= b.len() {
            seq![(p, e)] + spans(b, e)
        } else {
            seq![]
        }
    }
}

/// A word ends at a boundary.
proof fn lemma_word_end(b: Seq<u8>, p: int)
    requires
        util::boundary(b, p),
    ensures
        p <= word_end(b, p) <= b.len(),
        util::boundary(b, word_end(b, p)),
    decreases b.len() - p,
{
    if p < b.len() {
        util::lemma_after(b, p);
        if !util::char_is_whitespace(util::char_at(b, p)) && !bert_punct(util::char_at(b, p)) {
            lemma_word_end(b, util::after(b, p));
        }
    }
}

/// A piece is not empty and ends at a boundary.
pub proof fn law_piece_end(b: Seq<u8>, p: int)
    requires
        util::boundary(b, p),
        p < b.len(),
        !util::char_is_whitespace(util::char_at(b, p)),
    ensures
        p < piece_end(b, p) <= b.len(),
        util::boundary(b, piece_end(b, p)),
{
    util::lemma_after(b, p);
    lemma_word_end(b, util::after(b, p));
}

/// The pieces lie in the text one after another, at boundaries, and none is empty.
pub proof fn law_spans(b: Seq<u8>, p: int)
    requires
        util::boundary(b, p),
    ensures
        forall|i: int|
            0 <= i < spans(b, p).len() ==> {
                let s = #[trigger] spans(b, p)[i];
                &&& p <= s.0 < s.1 <= b.len()
                &&& util::boundary(b, s.0)
                &&& util::boundary(b, s.1)
            },
        forall|i: int, j: int|
            0 <= i < j < spans(b, p).len() ==> (#[trigger] spans(b, p)[i]).1 <= (
            #[trigger] spans(b, p)[j]).0,
    decreases b.len() - p,
{
    if p < b.len() {
        util::lemma_after(b, p);
        if util::char_is_whitespace(util::char_at(b, p)) {
            law_spans(b, util::after(b, p));
            assert(spans(b, p) == spans(b, util::after(b, p)));
        } else {
            law_piece_end(b, p);
            let e = piece_end(b, p);
            law_spans(b, e);
            let all = spans(b, p);
            let rest = spans(b, e);
            assert forall|i: int| 0 <= i < all.len() implies {
                let s = #[trigger] all[i];
                &&& p <= s.0 < s.1 <= b.len()
                &&& util::boundary(b, s.0)
                &&& util::boundary(b, s.1)
            } by {
                if i > 0 {
                    assert(all[i] == rest[i - 1]);
                }
            }
            assert forall|i: int, j: int| 0 <= i < j < all.len() implies (#[trigger] all[i]).1 <= (
            #[trigger] all[j]).0 by {
                assert(all[j] == rest[j - 1]);
                if i > 0 {
                    assert(all[i] == rest[i - 1]);
                }
            }
        }
    }
}

/// BERT pretokenizer over `text`.
pub struct Bert<'a> {
    text: &'a str,
    pos: usize,
}

impl<'a> Bert<'a> {
    /// The bytes of the text.
    pub closed spec fn text(&self) -> Seq<u8> {
        self.text.spec_bytes()
    }

    /// Where the scanner stands.
    pub closed spec fn position(&self) -> int {
        self.pos as int
    }

    /// The scanner is at a boundary of its text.
    pub closed spec fn wf(&self) -> bool {
        util::boundary(self.text.spec_bytes(), self.pos as int)
    }

    /// A scanner at the start of the text.
    pub fn new(text: &'a str) -> (r: Self)
        ensures
            r.wf(),
            r.text() == text.spec_bytes(),
            r.position() == 0,
    {
        proof {
            vstd::utf8::encode_utf8_valid_utf8(text@);
            util::lemma_boundary_ends(text.spec_bytes());
        }
        Bert { text, pos: 0 }
    }

    /// The span of the next piece.
    fn next_span(&mut self) -> (r: Option<(usize, usize)>)
        requires
            old(self).wf(),
        ensures
            final(self).wf(),
            final(self).text == old(self).text,
            match r {
                Some((s, e)) => {
                    &&& spans(old(self).text(), old(self).position()) =~= seq![
                        (s as int, e as int),
                    ] + spans(old(self).text(), final(self).position())
                    &&& s < e <= old(self).text().len()
                    &&& old(self).pos < final(self).pos
                    &&& util::boundary(old(self).text(), s as int)
                    &&& util::boundary(old(self).text(), e as int)
                },
                None => spans(old(self).text(), old(self).position()).len() == 0 && *final(self)
                    == *old(self),
            },
    {
        let ghost b = self.text.spec_bytes();
        let bytes = self.text.as_bytes();
        let len: usize = bytes.len();
        let mut p: usize = self.pos;
        while p < len
            invariant
                b == bytes@,
                len == b.len(),
                b == self.text(),
                util::boundary(b, p as int),
                old(self).pos <= p <= len,
                *self == *old(self),
                spans(b, self.pos as int) == spans(b, p as int),
            decreases len - p,
        {
            let (c, n) = decode_utf8(bytes, p);
            if c.is_whitespace() {
                p = p + n;
            } else {
                let start: usize = p;
                proof {
                    law_piece_end(b, p as int);
                }
                if is_bert_punct(c) {
                    p = p + n;
                } else {
                    p = p + n;
                    let mut more = p < len;
                    while more
                        invariant
                            b == bytes@,
                            len == b.len(),
                            util::boundary(b, p as int),
                            start < p <= len,
                            word_end(b, start as int) == word_end(b, p as int),
                            more ==> p < len,
                            !more ==> word_end(b, p as int) == p,
                        decreases len - p + if more { 1int } else { 0 },
                    {
                        let (d, k) = decode_utf8(bytes, p);
                        if d.is_whitespace() || is_bert_punct(d) {
                            more = false;
                        } else {
                            p = p + k;
                            more = p < len;
                        }
                    }
                }
                self.pos = p;
                return Some((start, p));
            }
        }
        None
    }

    /// The next piece, or `None` where only whitespace is left.
    pub fn next(&mut self) -> (r: Option<&'a str>)
        requires
            old(self).wf(),
        ensures
            final(self).wf(),
            final(self).text() == old(self).text(),
            match r {
                Some(p) => {
                    let all = spans(old(self).text(), old(self).position());
                    &&& all.len() > 0
                    &&& p.spec_bytes() == old(self).text().subrange(all[0].0, all[0].1)
                    &&& spans(old(self).text(), final(self).position()) == all.subrange(
                        1,
                        all.len() as int,
                    )
                    &&& old(self).position() < final(self).position() <= old(self).text().len()
                },
                None => spans(old(self).text(), old(self).position()).len() == 0
                    && final(self).position() == old(self).position(),
            },
    {
        match self.next_span() {
            Some((s, e)) => {
                proof {
                    let all = spans(old(self).text(), old(self).position());
                    assert(spans(old(self).text(), self.position()) =~= all.subrange(
                        1,
                        all.len() as int,
                    ));
                }
                Some(substr(self.text, s, e))
            },
            None => None,
        }
    }

    /// Where the pieces that are left stand in the text.
    pub fn spans(self) -> (r: Vec<(usize, usize)>)
        requires
            self.wf(),
        ensures
            mask::offsets(r@) == spans(self.text(), self.position()),
    {
        let mut scanner = self;
        let mut out: Vec<(usize, usize)> = Vec::new();
        let ghost b = self.text();
        let ghost all = spans(b, self.position());
        assert(all =~= mask::offsets(out@) + spans(b, scanner.position()));
        loop
            invariant
                scanner.wf(),
                scanner.text() == b,
                all == spans(b, self.position()),
                b == self.text(),
                all == mask::offsets(out@) + spans(b, scanner.position()),
            decreases b.len() - scanner.position(),
        {
            let ghost before = mask::offsets(out@);
            match scanner.next_span() {
                Some((s, e)) => {
                    out.push((s, e));
                    proof {
                        assert(mask::offsets(out@) =~= before.push((s as int, e as int)));
                        assert(all =~= mask::offsets(out@) + spans(b, scanner.position()));
                    }
                },
                None => {
                    assert(all =~= mask::offsets(out@));
                    return out;
                },
            }
        }
    }

    /// The pieces that are left, in order.
    pub fn pieces(self) -> (r: Vec<&'a str>)
        requires
            self.wf(),
        ensures
            rules::are_pieces(r@, self.text(), spans(self.text(), self.position())),
    {
        let mut scanner = self;
        let mut out: Vec<&'a str> = Vec::new();
        let ghost b = self.text();
        let ghost all = spans(b, self.position());
        let ghost mut done: Seq<(int, int)> = Seq::empty();
        assert(all =~= done + spans(b, scanner.position()));
        loop
            invariant
                scanner.wf(),
                scanner.text() == b,
                b == self.text(),
                all == spans(b, self.position()),
                all == done + spans(b, scanner.position()),
                rules::are_pieces(out@, b, done),
                scanner.position() <= b.len(),
            decreases b.len() - scanner.position(),
        {
            let ghost at = spans(b, scanner.position());
            match scanner.next() {
                Some(p) => {
                    proof {
                        done = done.push(at[0]);
                        assert(all =~= done + spans(b, scanner.position()));
                    }
                    out.push(p);
                },
                None => {
                    assert(all =~= done);
                    return out;
                },
            }
        }
    }
}

} // verus!
