//! Fast pre-tokenization for BPE tokenizers.
//!
//! A [`Pretokenizer`] is chosen once and then cuts any number of texts.
use crate::pretokie::bert;
use crate::pretokie::bert::Bert;
use crate::pretokie::config::PretokConfig;
use crate::pretokie::configs::{
    Cl100kConfig, DeepSeekConfig, Gpt2Config, O200kConfig, QwenConfig, SmolLMConfig, VoyageConfig,
};
use crate::pretokie::mask;
use crate::pretokie::mask::Mask;
use crate::pretokie::rules;
use crate::pretokie::util;
use vstd::prelude::*;
use vstd::utf8::*;
use vstd::string::*;

verus! {

/// Type of pretokenizer for serialization.
#[derive(Clone, Copy, Debug, PartialEq, Eq, Structural)]
pub enum PretokType {
    /// No pretokenizer.
    Absent,
    Gpt2,
    Cl100k,
    O200k,
    Bert,
    Voyage,
    DeepSeek,
    SmolLM,
    Qwen35,
}

/// The number that stands for a pretokenizer type.
pub open spec fn pretok_id(t: PretokType) -> u32 {
    match t {
        PretokType::Absent => 0,
        PretokType::Gpt2 => 1,
        PretokType::Cl100k => 2,
        PretokType::O200k => 3,
        PretokType::Bert => 4,
        PretokType::Voyage => 5,
        PretokType::DeepSeek => 6,
        PretokType::SmolLM => 7,
        PretokType::Qwen35 => 8,
    }
}

impl PretokType {
    /// The number that stands for the type in a file.
    pub fn to_u32(self) -> (v: u32)
        ensures
            v == pretok_id(self),
    {
        match self {
            PretokType::Absent => 0,
            PretokType::Gpt2 => 1,
            PretokType::Cl100k => 2,
            PretokType::O200k => 3,
            PretokType::Bert => 4,
            PretokType::Voyage => 5,
            PretokType::DeepSeek => 6,
            PretokType::SmolLM => 7,
            PretokType::Qwen35 => 8,
        }
    }

    /// The type that a number stands for.
    pub fn from_u32(v: u32) -> (r: Option<Self>)
        ensures
            r matches Some(t) ==> pretok_id(t) == v,
            r is None ==> v > 8,
    {
        match v {
            0 => Some(PretokType::Absent),
            1 => Some(PretokType::Gpt2),
            2 => Some(PretokType::Cl100k),
            3 => Some(PretokType::O200k),
            4 => Some(PretokType::Bert),
            5 => Some(PretokType::Voyage),
            6 => Some(PretokType::DeepSeek),
            7 => Some(PretokType::SmolLM),
            8 => Some(PretokType::Qwen35),
            _ => None,
        }
    }

    /// Create a `Pretokenizer` from this type.
    pub fn to_pretokenizer(self) -> (r: Option<Pretokenizer>)
        ensures
            r == pretokenizer_of(self),
    {
        match self {
            PretokType::Absent => None,
            _ => Some(Pretokenizer::from_type(self)),
        }
    }
}

/// The pretokenizer of a type, if it has one.
pub open spec fn pretokenizer_of(t: PretokType) -> Option<Pretokenizer> {
    match t {
        PretokType::Absent => None,
        PretokType::Gpt2 => Some(Pretokenizer::Gpt2),
        PretokType::Cl100k => Some(Pretokenizer::Cl100k),
        PretokType::O200k => Some(Pretokenizer::O200k),
        PretokType::Bert => Some(Pretokenizer::Bert),
        PretokType::Voyage => Some(Pretokenizer::Voyage),
        PretokType::DeepSeek => Some(Pretokenizer::DeepSeek),
        PretokType::SmolLM => Some(Pretokenizer::SmolLM),
        PretokType::Qwen35 => Some(Pretokenizer::Qwen),
    }
}

/// Different types have different numbers.
pub proof fn law_pretok_ids(a: PretokType, b: PretokType)
    ensures
        pretok_id(a) == pretok_id(b) ==> a == b,
{
}

/// A pretokenizer, ready to cut texts.
#[derive(Clone, Copy, Debug, PartialEq, Eq, Structural)]
pub enum Pretokenizer {
    Gpt2,
    Cl100k,
    Bert,
    O200k,
    Voyage,
    SmolLM,
    DeepSeek,
    Qwen,
}

/// Iterator returned by [`Pretokenizer::split`].
pub enum PretokenizerIter<'a> {
    Gpt2(Mask<'a, Gpt2Config>),
    Cl100k(Mask<'a, Cl100kConfig>),
    Bert(Bert<'a>),
    O200k(Mask<'a, O200kConfig>),
    Voyage(Mask<'a, VoyageConfig>),
    SmolLM(Mask<'a, SmolLMConfig>),
    DeepSeek(Mask<'a, DeepSeekConfig>),
    Qwen(Mask<'a, QwenConfig>),
}

/// The pieces from the next one on, and whether it can be had.
pub open spec fn next_is(
    before: Seq<(int, int)>,
    b: Seq<u8>,
    r: Option<&str>,
    after: Seq<(int, int)>,
) -> bool {
    match r {
        Some(p) => {
            &&& before.len() > 0
            &&& p.spec_bytes() == b.subrange(before[0].0, before[0].1)
            &&& after == before.subrange(1, before.len() as int)
        },
        None => before.len() == 0 && after.len() == 0,
    }
}

/// The next piece of a scanner.
fn next_of<'a, C: PretokConfig>(it: &mut Mask<'a, C>) -> (r: Option<&'a str>)
    requires
        old(it).wf(),
    ensures
        final(it).wf(),
        final(it).text() == old(it).text(),
        next_is(
            rules::spans::<C>(old(it).text(), old(it).position()),
            old(it).text(),
            r,
            rules::spans::<C>(old(it).text(), final(it).position()),
        ),
{
    let r = it.next();
    proof {
        let all = rules::spans::<C>(old(it).text(), old(it).position());
        let rest = rules::spans::<C>(old(it).text(), it.position());
        if r is Some {
            assert(rest =~= all.subrange(1, all.len() as int));
        }
    }
    r
}

impl<'a> PretokenizerIter<'a> {
    /// The text, and the pieces that are left.
    pub closed spec fn text(&self) -> Seq<u8> {
        match self {
            PretokenizerIter::Gpt2(it) => it.text(),
            PretokenizerIter::Cl100k(it) => it.text(),
            PretokenizerIter::Bert(it) => it.text(),
            PretokenizerIter::O200k(it) => it.text(),
            PretokenizerIter::Voyage(it) => it.text(),
            PretokenizerIter::SmolLM(it) => it.text(),
            PretokenizerIter::DeepSeek(it) => it.text(),
            PretokenizerIter::Qwen(it) => it.text(),
        }
    }

    /// The pieces that are left.
    pub closed spec fn left(&self) -> Seq<(int, int)> {
        match self {
            PretokenizerIter::Gpt2(it) => rules::spans::<Gpt2Config>(it.text(), it.position()),
            PretokenizerIter::Cl100k(it) => rules::spans::<Cl100kConfig>(it.text(), it.position()),
            PretokenizerIter::Bert(it) => bert::spans(it.text(), it.position()),
            PretokenizerIter::O200k(it) => rules::spans::<O200kConfig>(it.text(), it.position()),
            PretokenizerIter::Voyage(it) => rules::spans::<VoyageConfig>(it.text(), it.position()),
            PretokenizerIter::SmolLM(it) => rules::spans::<SmolLMConfig>(it.text(), it.position()),
            PretokenizerIter::DeepSeek(it) => rules::spans::<DeepSeekConfig>(
                it.text(),
                it.position(),
            ),
            PretokenizerIter::Qwen(it) => rules::spans::<QwenConfig>(it.text(), it.position()),
        }
    }

    /// The scanner is at a boundary of its text.
    pub closed spec fn wf(&self) -> bool {
        match self {
            PretokenizerIter::Gpt2(it) => it.wf(),
            PretokenizerIter::Cl100k(it) => it.wf(),
            PretokenizerIter::Bert(it) => it.wf(),
            PretokenizerIter::O200k(it) => it.wf(),
            PretokenizerIter::Voyage(it) => it.wf(),
            PretokenizerIter::SmolLM(it) => it.wf(),
            PretokenizerIter::DeepSeek(it) => it.wf(),
            PretokenizerIter::Qwen(it) => it.wf(),
        }
    }

    /// The next piece.
    pub fn next(&mut self) -> (r: Option<&'a str>)
        requires
            old(self).wf(),
        ensures
            final(self).wf(),
            final(self).text() == old(self).text(),
            next_is(old(self).left(), old(self).text(), r, final(self).left()),
    {
        match self {
            PretokenizerIter::Gpt2(it) => next_of(it),
            PretokenizerIter::Cl100k(it) => next_of(it),
            PretokenizerIter::Bert(it) => it.next(),
            PretokenizerIter::O200k(it) => next_of(it),
            PretokenizerIter::Voyage(it) => next_of(it),
            PretokenizerIter::SmolLM(it) => next_of(it),
            PretokenizerIter::DeepSeek(it) => next_of(it),
            PretokenizerIter::Qwen(it) => next_of(it),
        }
    }
}

/// The pieces of a text under the rules `C`, by way of the batch scanner.
fn pieces_of<'a, C: PretokConfig>(text: &'a str) -> (r: Vec<&'a str>)
    ensures
        rules::are_pieces(r@, text.spec_bytes(), rules::spans::<C>(text.spec_bytes(), 0)),
{
    Mask::<C>::new(text).pieces()
}

/// Where the pieces of a text under the rules `C` stand in it.
fn spans_of<C: PretokConfig>(text: &str) -> (r: Vec<(usize, usize)>)
    ensures
        mask::offsets(r@) == rules::spans::<C>(text.spec_bytes(), 0),
{
    let ghost b = text.spec_bytes();
    let ghost all = rules::spans::<C>(b, 0);
    proof {
        vstd::utf8::encode_utf8_valid_utf8(text@);
        util::lemma_boundary_ends(b);
        rules::law_pieces_partition::<C>(b, 0);
    }
    let n: usize = text.as_bytes().len();
    let pieces = pieces_of::<C>(text);
    let mut out: Vec<(usize, usize)> = Vec::new();
    let mut pos: usize = 0;
    let mut i: usize = 0;
    while i < pieces.len()
        invariant
            i <= pieces.len(),
            b == text.spec_bytes(),
            n == b.len(),
            all == rules::spans::<C>(b, 0),
            util::boundary(b, 0),
            rules::are_pieces(pieces@, b, all),
            out@.len() == i,
            i < all.len() ==> pos == all[i as int].0,
            forall|j: int|
                0 <= j < i ==> (#[trigger] out@[j]).0 == all[j].0 && out@[j].1 == all[j].1,
        decreases pieces.len() - i,
    {
        proof {
            rules::law_pieces_partition::<C>(b, 0);
            let s = all[i as int];
            assert(s.0 < s.1 <= n) by {
                if i + 1 < all.len() {
                    let t = all[i + 1];
                    assert(util::boundary(b, t.0));
                }
            }
        }
        let piece: &str = pieces[i];
        let k: usize = piece.as_bytes().len();
        assert(piece.spec_bytes() == b.subrange(all[i as int].0, all[i as int].1));
        let end: usize = pos + k;
        out.push((pos, end));
        pos = end;
        i = i + 1;
    }
    assert(mask::offsets(out@) =~= all);
    out
}

impl Pretokenizer {
    /// The pieces that the pretokenizer cuts a text into.
    pub open spec fn spans(self, b: Seq<u8>) -> Seq<(int, int)> {
        match self {
            Pretokenizer::Gpt2 => rules::spans::<Gpt2Config>(b, 0),
            Pretokenizer::Cl100k => rules::spans::<Cl100kConfig>(b, 0),
            Pretokenizer::Bert => bert::spans(b, 0),
            Pretokenizer::O200k => rules::spans::<O200kConfig>(b, 0),
            Pretokenizer::Voyage => rules::spans::<VoyageConfig>(b, 0),
            Pretokenizer::SmolLM => rules::spans::<SmolLMConfig>(b, 0),
            Pretokenizer::DeepSeek => rules::spans::<DeepSeekConfig>(b, 0),
            Pretokenizer::Qwen => rules::spans::<QwenConfig>(b, 0),
        }
    }

    /// Create a `Pretokenizer` from a `PretokType`; GPT-2 where there is none.
    pub fn from_type(ty: PretokType) -> (r: Self)
        ensures
            r == match pretokenizer_of(ty) {
                Some(p) => p,
                None => Pretokenizer::Gpt2,
            },
    {
        match ty {
            PretokType::Absent => Pretokenizer::Gpt2,
            PretokType::Gpt2 => Pretokenizer::Gpt2,
            PretokType::Cl100k => Pretokenizer::Cl100k,
            PretokType::Bert => Pretokenizer::Bert,
            PretokType::O200k => Pretokenizer::O200k,
            PretokType::Voyage => Pretokenizer::Voyage,
            PretokType::SmolLM => Pretokenizer::SmolLM,
            PretokType::DeepSeek => Pretokenizer::DeepSeek,
            PretokType::Qwen35 => Pretokenizer::Qwen,
        }
    }

    pub fn gpt2() -> (r: Self)
        ensures
            r == Pretokenizer::Gpt2,
    {
        Pretokenizer::Gpt2
    }

    pub fn cl100k() -> (r: Self)
        ensures
            r == Pretokenizer::Cl100k,
    {
        Pretokenizer::Cl100k
    }

    pub fn bert() -> (r: Self)
        ensures
            r == Pretokenizer::Bert,
    {
        Pretokenizer::Bert
    }

    pub fn o200k() -> (r: Self)
        ensures
            r == Pretokenizer::O200k,
    {
        Pretokenizer::O200k
    }

    pub fn voyage() -> (r: Self)
        ensures
            r == Pretokenizer::Voyage,
    {
        Pretokenizer::Voyage
    }

    pub fn smollm() -> (r: Self)
        ensures
            r == Pretokenizer::SmolLM,
    {
        Pretokenizer::SmolLM
    }

    pub fn deepseek() -> (r: Self)
        ensures
            r == Pretokenizer::DeepSeek,
    {
        Pretokenizer::DeepSeek
    }

    pub fn qwen() -> (r: Self)
        ensures
            r == Pretokenizer::Qwen,
    {
        Pretokenizer::Qwen
    }

    /// Every piece of `text`, dispatching on the pretokenizer once.
    pub fn for_each_piece<'a>(&self, text: &'a str) -> (r: Vec<&'a str>)
        ensures
            rules::are_pieces(r@, text.spec_bytes(), self.spans(text.spec_bytes())),
    {
        match self {
            Pretokenizer::Gpt2 => pieces_of::<Gpt2Config>(text),
            Pretokenizer::Cl100k => pieces_of::<Cl100kConfig>(text),
            Pretokenizer::Bert => Bert::new(text).pieces(),
            Pretokenizer::O200k => pieces_of::<O200kConfig>(text),
            Pretokenizer::Voyage => pieces_of::<VoyageConfig>(text),
            Pretokenizer::SmolLM => pieces_of::<SmolLMConfig>(text),
            Pretokenizer::DeepSeek => pieces_of::<DeepSeekConfig>(text),
            Pretokenizer::Qwen => pieces_of::<QwenConfig>(text),
        }
    }

    /// Where the pieces of `text` stand in it.
    pub fn spans_of(&self, text: &str) -> (r: Vec<(usize, usize)>)
        ensures
            mask::offsets(r@) == self.spans(text.spec_bytes()),
            forall|i: int|
                0 <= i < self.spans(text.spec_bytes()).len() ==> 0 <= (#[trigger] self.spans(
                    text.spec_bytes(),
                )[i]).0 < self.spans(text.spec_bytes())[i].1 <= text.spec_bytes().len(),
    {
        proof {
            encode_utf8_valid_utf8(text@);
            law_spans_lie_in_text(*self, text.spec_bytes());
        }
        match self {
            Pretokenizer::Gpt2 => spans_of::<Gpt2Config>(text),
            Pretokenizer::Cl100k => spans_of::<Cl100kConfig>(text),
            Pretokenizer::Bert => Bert::new(text).spans(),
            Pretokenizer::O200k => spans_of::<O200kConfig>(text),
            Pretokenizer::Voyage => spans_of::<VoyageConfig>(text),
            Pretokenizer::SmolLM => spans_of::<SmolLMConfig>(text),
            Pretokenizer::DeepSeek => spans_of::<DeepSeekConfig>(text),
            Pretokenizer::Qwen => spans_of::<QwenConfig>(text),
        }
    }

    /// Split text into pre-tokens, one at a time.
    pub fn split<'a>(&self, text: &'a str) -> (r: PretokenizerIter<'a>)
        ensures
            r.wf(),
            r.text() == text.spec_bytes(),
            r.left() == self.spans(text.spec_bytes()),
    {
        match self {
            Pretokenizer::Gpt2 => PretokenizerIter::Gpt2(Mask::new(text)),
            Pretokenizer::Cl100k => PretokenizerIter::Cl100k(Mask::new(text)),
            Pretokenizer::Bert => PretokenizerIter::Bert(Bert::new(text)),
            Pretokenizer::O200k => PretokenizerIter::O200k(Mask::new(text)),
            Pretokenizer::Voyage => PretokenizerIter::Voyage(Mask::new(text)),
            Pretokenizer::SmolLM => PretokenizerIter::SmolLM(Mask::new(text)),
            Pretokenizer::DeepSeek => PretokenizerIter::DeepSeek(Mask::new(text)),
            Pretokenizer::Qwen => PretokenizerIter::Qwen(Mask::new(text)),
        }
    }
}

proof fn lemma_rules_spans<C: PretokConfig>(b: Seq<u8>)
    requires
        util::boundary(b, 0),
        util::boundary(b, b.len() as int),
    ensures
        forall|i: int|
            0 <= i < rules::spans::<C>(b, 0).len() ==> {
                let s = #[trigger] rules::spans::<C>(b, 0)[i];
                &&& 0 <= s.0 < s.1 <= b.len()
                &&& util::boundary(b, s.0)
                &&& util::boundary(b, s.1)
            },
{
    rules::law_pieces_partition::<C>(b, 0);
    let all = rules::spans::<C>(b, 0);
    assert forall|i: int| 0 <= i < all.len() implies {
        let s = #[trigger] all[i];
        &&& 0 <= s.0 < s.1 <= b.len()
        &&& util::boundary(b, s.0)
        &&& util::boundary(b, s.1)
    } by {
        if i + 1 < all.len() {
            let t = all[i + 1];
            assert(util::boundary(b, t.0));
        }
    }
}

/// The pieces of a text lie in it, at boundaries, and none is empty.
pub proof fn law_spans_lie_in_text(p: Pretokenizer, b: Seq<u8>)
    requires
        valid_utf8(b),
    ensures
        forall|i: int|
            0 <= i < p.spans(b).len() ==> {
                let s = #[trigger] p.spans(b)[i];
                &&& 0 <= s.0 < s.1 <= b.len()
                &&& util::boundary(b, s.0)
                &&& util::boundary(b, s.1)
            },
{
    util::lemma_boundary_ends(b);
    match p {
        Pretokenizer::Gpt2 => lemma_rules_spans::<Gpt2Config>(b),
        Pretokenizer::Cl100k => lemma_rules_spans::<Cl100kConfig>(b),
        Pretokenizer::Bert => bert::law_spans(b, 0),
        Pretokenizer::O200k => lemma_rules_spans::<O200kConfig>(b),
        Pretokenizer::Voyage => lemma_rules_spans::<VoyageConfig>(b),
        Pretokenizer::SmolLM => lemma_rules_spans::<SmolLMConfig>(b),
        Pretokenizer::DeepSeek => lemma_rules_spans::<DeepSeekConfig>(b),
        Pretokenizer::Qwen => lemma_rules_spans::<QwenConfig>(b),
    }
}

/// The pieces of a text, joined, are the text, and each starts where the one
/// before it ends, but for the whitespace that the BERT pretokenizer drops.
pub proof fn law_pieces_join(p: Pretokenizer, b: Seq<u8>)
    requires
        p != Pretokenizer::Bert,
        valid_utf8(b),
    ensures
        rules::joined(b, p.spans(b)) == b,
        p.spans(b).len() > 0 <==> b.len() > 0,
        b.len() > 0 ==> p.spans(b)[0].0 == 0,
        forall|i: int|
            0 <= i < p.spans(b).len() ==> (#[trigger] p.spans(b)[i]).1 == if i + 1 < p.spans(
                b,
            ).len() {
                p.spans(b)[i + 1].0
            } else {
                b.len() as int
            },
{
    util::lemma_boundary_ends(b);
    assert(util::tail(b, 0) =~= b);
    match p {
        Pretokenizer::Gpt2 => rules::law_pieces_partition::<Gpt2Config>(b, 0),
        Pretokenizer::Cl100k => rules::law_pieces_partition::<Cl100kConfig>(b, 0),
        Pretokenizer::Bert => {},
        Pretokenizer::O200k => rules::law_pieces_partition::<O200kConfig>(b, 0),
        Pretokenizer::Voyage => rules::law_pieces_partition::<VoyageConfig>(b, 0),
        Pretokenizer::SmolLM => rules::law_pieces_partition::<SmolLMConfig>(b, 0),
        Pretokenizer::DeepSeek => rules::law_pieces_partition::<DeepSeekConfig>(b, 0),
        Pretokenizer::Qwen => rules::law_pieces_partition::<QwenConfig>(b, 0),
    }
}

/// There is one list of the pieces of a text: what is handed out one by one
/// and what is drained in one go are the same pieces, in the same order.
pub proof fn law_one_list_of_pretokens(p: Pretokenizer, x: Seq<&str>, y: Seq<&str>, b: Seq<u8>)
    requires
        rules::are_pieces(x, b, p.spans(b)),
        rules::are_pieces(y, b, p.spans(b)),
    ensures
        x.len() == y.len(),
        forall|i: int| 0 <= i < x.len() ==> (#[trigger] x[i])@ == y[i]@,
{
    assert forall|i: int| 0 <= i < x.len() implies (#[trigger] x[i])@ == y[i]@ by {
        assert(x[i].spec_bytes() == y[i].spec_bytes());
        encode_utf8_decode_utf8(x[i]@);
        encode_utf8_decode_utf8(y[i]@);
    }
}

} // verus!
