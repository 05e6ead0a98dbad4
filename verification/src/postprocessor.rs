//! Special tokens around encoded sequences.
use crate::types::TokenId;
use vstd::prelude::*;

verus! {

/// Which special tokens go around a sequence, or around a pair of sequences.
#[derive(Clone, Debug, PartialEq, Eq)]
pub enum PostProcessor {
    /// No special tokens.
    Absent,
    /// `[CLS] A [SEP]`, and `[CLS] A [SEP] B [SEP]` for a pair.
    Bert { cls_token: TokenId, sep_token: TokenId },
    /// `<s> A`, and `<s> A <s> B` for a pair.
    Prefix { bos_token: TokenId },
    /// Any tokens in front of and behind each sequence.
    Template {
        single_prefix: Vec<TokenId>,
        single_suffix: Vec<TokenId>,
        pair_a_prefix: Vec<TokenId>,
        pair_a_suffix: Vec<TokenId>,
        pair_b_prefix: Vec<TokenId>,
        pair_b_suffix: Vec<TokenId>,
    },
}

/// The special tokens in front of and behind a sequence, and around the two
/// sequences of a pair.
pub struct Frame {
    pub single_prefix: Seq<TokenId>,
    pub single_suffix: Seq<TokenId>,
    pub pair_a_prefix: Seq<TokenId>,
    pub pair_a_suffix: Seq<TokenId>,
    pub pair_b_prefix: Seq<TokenId>,
    pub pair_b_suffix: Seq<TokenId>,
}

/// A sequence with its special tokens.
pub open spec fn framed(f: Frame, tokens: Seq<TokenId>) -> Seq<TokenId> {
    f.single_prefix + tokens + f.single_suffix
}

/// The first sequence of a pair with its special tokens.
pub open spec fn framed_first(f: Frame, a: Seq<TokenId>) -> Seq<TokenId> {
    f.pair_a_prefix + a + f.pair_a_suffix
}

/// The second sequence of a pair with its special tokens.
pub open spec fn framed_second(f: Frame, b: Seq<TokenId>) -> Seq<TokenId> {
    f.pair_b_prefix + b + f.pair_b_suffix
}

/// How many special tokens a sequence gets.
pub open spec fn single_extra(f: Frame) -> nat {
    f.single_prefix.len() + f.single_suffix.len()
}

/// How many special tokens a pair of sequences gets.
pub open spec fn pair_extra(f: Frame) -> nat {
    f.pair_a_prefix.len() + f.pair_a_suffix.len() + f.pair_b_prefix.len() + f.pair_b_suffix.len()
}

/// The special tokens of a frame are few enough to be counted.
pub open spec fn frame_fits(f: Frame) -> bool {
    f.single_prefix.len() + f.single_suffix.len() + f.pair_a_prefix.len() + f.pair_a_suffix.len()
        + f.pair_b_prefix.len() + f.pair_b_suffix.len() <= u32::MAX
}

/// The frame holds the token.
pub open spec fn frame_has(f: Frame, t: TokenId) -> bool {
    ||| f.single_prefix.contains(t)
    ||| f.single_suffix.contains(t)
    ||| f.pair_a_prefix.contains(t)
    ||| f.pair_a_suffix.contains(t)
    ||| f.pair_b_prefix.contains(t)
    ||| f.pair_b_suffix.contains(t)
}

/// `n` times the byte `x`.
pub open spec fn repeated(x: u8, n: nat) -> Seq<u8> {
    Seq::new(n, |i: int| x)
}

/// Is the token in the list?
fn holds(list: &[TokenId], t: TokenId) -> (r: bool)
    ensures
        r == list@.contains(t),
{
    let mut i: usize = 0;
    while i < list.len()
        invariant
            i <= list.len(),
            forall|j: int| 0 <= j < i ==> list@[j] != t,
        decreases list.len() - i,
    {
        if list[i] == t {
            assert(list@[i as int] == t);
            return true;
        }
        i = i + 1;
    }
    false
}

/// Append tokens.
pub fn push_tokens(out: &mut Vec<TokenId>, tokens: &[TokenId])
    ensures
        final(out)@ == old(out)@ + tokens@,
{
    out.extend_from_slice(tokens);
    assert(out@ =~= old(out)@ + tokens@);
}

/// Append `n` times the byte `x`.
pub fn push_repeated(out: &mut Vec<u8>, x: u8, n: usize)
    ensures
        final(out)@ == old(out)@ + repeated(x, n as nat),
{
    let mut i: usize = 0;
    while i < n
        invariant
            i <= n,
            out@ =~= old(out)@ + repeated(x, i as nat),
        decreases n - i,
    {
        out.push(x);
        i = i + 1;
    }
}

impl PostProcessor {
    /// The special tokens of the post-processor.
    pub open spec fn frame(self) -> Frame {
        match self {
            PostProcessor::Absent => Frame {
                single_prefix: seq![],
                single_suffix: seq![],
                pair_a_prefix: seq![],
                pair_a_suffix: seq![],
                pair_b_prefix: seq![],
                pair_b_suffix: seq![],
            },
            PostProcessor::Bert { cls_token, sep_token } => Frame {
                single_prefix: seq![cls_token],
                single_suffix: seq![sep_token],
                pair_a_prefix: seq![cls_token],
                pair_a_suffix: seq![sep_token],
                pair_b_prefix: seq![],
                pair_b_suffix: seq![sep_token],
            },
            PostProcessor::Prefix { bos_token } => Frame {
                single_prefix: seq![bos_token],
                single_suffix: seq![],
                pair_a_prefix: seq![bos_token],
                pair_a_suffix: seq![],
                pair_b_prefix: seq![bos_token],
                pair_b_suffix: seq![],
            },
            PostProcessor::Template {
                single_prefix,
                single_suffix,
                pair_a_prefix,
                pair_a_suffix,
                pair_b_prefix,
                pair_b_suffix,
            } => Frame {
                single_prefix: single_prefix@,
                single_suffix: single_suffix@,
                pair_a_prefix: pair_a_prefix@,
                pair_a_suffix: pair_a_suffix@,
                pair_b_prefix: pair_b_prefix@,
                pair_b_suffix: pair_b_suffix@,
            },
        }
    }

    /// `[CLS]` in front, `[SEP]` behind each sequence.
    pub fn bert(cls_token: TokenId, sep_token: TokenId) -> (r: Self)
        ensures
            r == (PostProcessor::Bert { cls_token, sep_token }),
    {
        PostProcessor::Bert { cls_token, sep_token }
    }

    /// `<s>` in front of each sequence.
    pub fn prefix(bos_token: TokenId) -> (r: Self)
        ensures
            r == (PostProcessor::Prefix { bos_token }),
    {
        PostProcessor::Prefix { bos_token }
    }

    /// Add the special tokens to one sequence.
    pub fn process(&self, tokens: &[TokenId]) -> (r: Vec<TokenId>)
        ensures
            r@ == framed(self.frame(), tokens@),
    {
        let mut out: Vec<TokenId> = Vec::new();
        match self {
            PostProcessor::Absent => {
                push_tokens(&mut out, tokens);
            },
            PostProcessor::Bert { cls_token, sep_token } => {
                out.push(*cls_token);
                push_tokens(&mut out, tokens);
                out.push(*sep_token);
            },
            PostProcessor::Prefix { bos_token } => {
                out.push(*bos_token);
                push_tokens(&mut out, tokens);
            },
            PostProcessor::Template { single_prefix, single_suffix, .. } => {
                push_tokens(&mut out, single_prefix.as_slice());
                push_tokens(&mut out, tokens);
                push_tokens(&mut out, single_suffix.as_slice());
            },
        }
        assert(out@ =~= framed(self.frame(), tokens@));
        out
    }

    /// Add the special tokens to a pair of sequences. Gives the tokens, and
    /// for each whether it belongs to the first (0) or the second (1) sequence.
    pub fn process_pair(&self, a: &[TokenId], b: &[TokenId]) -> (r: (Vec<TokenId>, Vec<u8>))
        ensures
            r.0@ == framed_first(self.frame(), a@) + framed_second(self.frame(), b@),
            r.1@ == repeated(0, framed_first(self.frame(), a@).len()) + repeated(
                1,
                framed_second(self.frame(), b@).len(),
            ),
    {
        let ghost f = self.frame();
        let mut out: Vec<TokenId> = Vec::new();
        let mut types: Vec<u8> = Vec::new();
        match self {
            PostProcessor::Absent => {
                push_tokens(&mut out, a);
            },
            PostProcessor::Bert { cls_token, sep_token } => {
                out.push(*cls_token);
                push_tokens(&mut out, a);
                out.push(*sep_token);
            },
            PostProcessor::Prefix { bos_token } => {
                out.push(*bos_token);
                push_tokens(&mut out, a);
            },
            PostProcessor::Template { pair_a_prefix, pair_a_suffix, .. } => {
                push_tokens(&mut out, pair_a_prefix.as_slice());
                push_tokens(&mut out, a);
                push_tokens(&mut out, pair_a_suffix.as_slice());
            },
        }
        assert(out@ =~= framed_first(f, a@));
        let first: usize = out.len();
        push_repeated(&mut types, 0, first);
        match self {
            PostProcessor::Absent => {
                push_tokens(&mut out, b);
            },
            PostProcessor::Bert { sep_token, .. } => {
                push_tokens(&mut out, b);
                out.push(*sep_token);
            },
            PostProcessor::Prefix { bos_token } => {
                out.push(*bos_token);
                push_tokens(&mut out, b);
            },
            PostProcessor::Template { pair_b_prefix, pair_b_suffix, .. } => {
                push_tokens(&mut out, pair_b_prefix.as_slice());
                push_tokens(&mut out, b);
                push_tokens(&mut out, pair_b_suffix.as_slice());
            },
        }
        assert(out@ =~= framed_first(f, a@) + framed_second(f, b@));
        let second: usize = out.len() - first;
        push_repeated(&mut types, 1, second);
        assert(types@ =~= repeated(0, first as nat) + repeated(1, second as nat));
        (out, types)
    }

    /// Number of special tokens that a single sequence gets.
    pub fn num_special_tokens_single(&self) -> (n: usize)
        requires
            frame_fits(self.frame()),
        ensures
            n == single_extra(self.frame()),
    {
        match self {
            PostProcessor::Absent => 0,
            PostProcessor::Bert { .. } => 2,
            PostProcessor::Prefix { .. } => 1,
            PostProcessor::Template { single_prefix, single_suffix, .. } => single_prefix.len()
                + single_suffix.len(),
        }
    }

    /// Number of special tokens in front of a single sequence.
    pub fn num_prefix_tokens_single(&self) -> (n: usize)
        ensures
            n == self.frame().single_prefix.len(),
    {
        match self {
            PostProcessor::Absent => 0,
            PostProcessor::Bert { .. } => 1,
            PostProcessor::Prefix { .. } => 1,
            PostProcessor::Template { single_prefix, .. } => single_prefix.len(),
        }
    }

    /// Number of special tokens that a pair of sequences gets.
    pub fn num_special_tokens_pair(&self) -> (n: usize)
        requires
            frame_fits(self.frame()),
        ensures
            n == pair_extra(self.frame()),
    {
        match self {
            PostProcessor::Absent => 0,
            PostProcessor::Bert { .. } => 3,
            PostProcessor::Prefix { .. } => 2,
            PostProcessor::Template {
                pair_a_prefix,
                pair_a_suffix,
                pair_b_prefix,
                pair_b_suffix,
                ..
            } => pair_a_prefix.len() + pair_a_suffix.len() + pair_b_prefix.len()
                + pair_b_suffix.len(),
        }
    }

    /// Is it one of the special tokens that the post-processor adds?
    pub fn is_special_token(&self, t: TokenId) -> (r: bool)
        ensures
            r == frame_has(self.frame(), t),
    {
        match self {
            PostProcessor::Absent => false,
            PostProcessor::Bert { cls_token, sep_token } => {
                proof {
                    let f = self.frame();
                    if t == cls_token {
                        assert(f.single_prefix[0] == t);
                    }
                    if t == sep_token {
                        assert(f.single_suffix[0] == t);
                    }
                }
                t == *cls_token || t == *sep_token
            },
            PostProcessor::Prefix { bos_token } => {
                proof {
                    if t == bos_token {
                        assert(self.frame().single_prefix[0] == t);
                    }
                }
                t == *bos_token
            },
            PostProcessor::Template {
                single_prefix,
                single_suffix,
                pair_a_prefix,
                pair_a_suffix,
                pair_b_prefix,
                pair_b_suffix,
            } => holds(single_prefix.as_slice(), t) || holds(single_suffix.as_slice(), t) || holds(
                pair_a_prefix.as_slice(),
                t,
            ) || holds(pair_a_suffix.as_slice(), t) || holds(pair_b_prefix.as_slice(), t) || holds(
                pair_b_suffix.as_slice(),
                t,
            ),
        }
    }
}

/// The special tokens of a sequence are as many as are counted.
pub proof fn law_special_tokens_counted(f: Frame, tokens: Seq<TokenId>)
    ensures
        framed(f, tokens).len() == tokens.len() + f.single_prefix.len() + f.single_suffix.len(),
{
}

} // verus!
