//! Encodings, and how they are cut and filled to a length.
use crate::postprocessor;
use crate::postprocessor::push_repeated;
use crate::text::same_text;
use crate::types::TokenId;
use vstd::prelude::*;
use vstd::slice::*;

verus! {

/// An encoded text: token ids, and for each whether it counts (1) or is
/// padding (0), which sequence it belongs to, and where in the text it stands.
/// The offsets are empty where they were not asked for.
#[derive(Clone, Debug, PartialEq, Eq)]
pub struct Encoding {
    pub ids: Vec<TokenId>,
    pub attention_mask: Vec<u8>,
    pub type_ids: Vec<u8>,
    pub offsets: Vec<(usize, usize)>,
}

/// To which length encodings are filled.
#[derive(Clone, Copy, Debug, PartialEq, Eq, Structural)]
pub enum PaddingStrategy {
    /// To the longest of a batch.
    BatchLongest,
    /// To a given length.
    Fixed(usize),
}

/// At which end padding goes.
#[derive(Clone, Copy, Debug, PartialEq, Eq, Structural)]
pub enum PaddingDirection {
    Left,
    Right,
}

/// How encodings are filled.
#[derive(Clone, Copy, Debug, PartialEq, Eq, Structural)]
pub struct PaddingParams {
    pub strategy: PaddingStrategy,
    pub direction: PaddingDirection,
    pub pad_to_multiple_of: Option<usize>,
    pub pad_id: TokenId,
    pub pad_type_id: u8,
}

impl Default for PaddingParams {
    fn default() -> (r: Self)
        ensures
            r.strategy == PaddingStrategy::BatchLongest,
            r.direction == PaddingDirection::Right,
            r.pad_to_multiple_of is None,
            r.pad_id == 0,
            r.pad_type_id == 0,
    {
        PaddingParams {
            strategy: PaddingStrategy::BatchLongest,
            direction: PaddingDirection::Right,
            pad_to_multiple_of: None,
            pad_id: 0,
            pad_type_id: 0,
        }
    }
}

/// Which sequence of a pair gives way.
#[derive(Clone, Copy, Debug, PartialEq, Eq, Structural)]
pub enum TruncationStrategy {
    LongestFirst,
    OnlyFirst,
    OnlySecond,
}

/// At which end a sequence is cut.
#[derive(Clone, Copy, Debug, PartialEq, Eq, Structural)]
pub enum TruncationDirection {
    Left,
    Right,
}

/// How sequences are cut.
#[derive(Clone, Copy, Debug, PartialEq, Eq, Structural)]
pub struct TruncationParams {
    pub max_length: usize,
    pub strategy: TruncationStrategy,
    pub direction: TruncationDirection,
    /// How far the parts of a cut text overlap.
    pub stride: usize,
}

impl Default for TruncationParams {
    fn default() -> (r: Self)
        ensures
            r.max_length == 512,
            r.strategy == TruncationStrategy::LongestFirst,
            r.direction == TruncationDirection::Right,
            r.stride == 0,
    {
        TruncationParams {
            max_length: 512,
            strategy: TruncationStrategy::LongestFirst,
            direction: TruncationDirection::Right,
            stride: 0,
        }
    }
}

// ---- by name ----

impl PaddingDirection {
    /// The direction with this name.
    pub fn from_name(name: &str) -> (r: Option<Self>)
        ensures
            name@ == "right"@ ==> r == Some(PaddingDirection::Right),
            name@ == "left"@ ==> r == Some(PaddingDirection::Left),
            name@ != "right"@ && name@ != "left"@ ==> r is None,
    {
        proof {
            reveal_strlit("right");
            reveal_strlit("left");
        }
        assert("right"@.len() != "left"@.len());
        if same_text(name, "right") {
            Some(PaddingDirection::Right)
        } else if same_text(name, "left") {
            Some(PaddingDirection::Left)
        } else {
            None
        }
    }
}

impl TruncationDirection {
    /// The direction with this name.
    pub fn from_name(name: &str) -> (r: Option<Self>)
        ensures
            name@ == "right"@ ==> r == Some(TruncationDirection::Right),
            name@ == "left"@ ==> r == Some(TruncationDirection::Left),
            name@ != "right"@ && name@ != "left"@ ==> r is None,
    {
        proof {
            reveal_strlit("right");
            reveal_strlit("left");
        }
        assert("right"@.len() != "left"@.len());
        if same_text(name, "right") {
            Some(TruncationDirection::Right)
        } else if same_text(name, "left") {
            Some(TruncationDirection::Left)
        } else {
            None
        }
    }
}

impl TruncationStrategy {
    /// The strategy with this name.
    pub fn from_name(name: &str) -> (r: Option<Self>)
        ensures
            name@ == "longest_first"@ ==> r == Some(TruncationStrategy::LongestFirst),
            name@ == "only_first"@ ==> r == Some(TruncationStrategy::OnlyFirst),
            name@ == "only_second"@ ==> r == Some(TruncationStrategy::OnlySecond),
            name@ != "longest_first"@ && name@ != "only_first"@ && name@ != "only_second"@
                ==> r is None,
    {
        proof {
            reveal_strlit("longest_first");
            reveal_strlit("only_first");
            reveal_strlit("only_second");
        }
        assert("only_first"@.len() != "only_second"@.len());
        assert("longest_first"@.len() != "only_second"@.len());
        assert("longest_first"@.len() != "only_first"@.len());
        if same_text(name, "longest_first") {
            Some(TruncationStrategy::LongestFirst)
        } else if same_text(name, "only_first") {
            Some(TruncationStrategy::OnlyFirst)
        } else if same_text(name, "only_second") {
            Some(TruncationStrategy::OnlySecond)
        } else {
            None
        }
    }
}

// ---- cutting ----

/// The first or last `max` entries.
pub open spec fn truncated<T>(s: Seq<T>, max: int, direction: TruncationDirection) -> Seq<T> {
    if s.len() <= max {
        s
    } else {
        match direction {
            TruncationDirection::Right => s.subrange(0, max),
            TruncationDirection::Left => s.subrange(s.len() - max, s.len() as int),
        }
    }
}

/// Cut a sequence to at most `max` entries.
pub fn truncate_ids<T: Copy>(s: &mut Vec<T>, max: usize, direction: TruncationDirection)
    ensures
        final(s)@ == truncated(old(s)@, max as int, direction),
{
    if s.len() > max {
        match direction {
            TruncationDirection::Right => {
                s.truncate(max);
            },
            TruncationDirection::Left => {
                let start: usize = s.len() - max;
                let mut kept: Vec<T> = Vec::new();
                let mut i: usize = start;
                while i < s.len()
                    invariant
                        start <= i <= s.len(),
                        s@ == old(s)@,
                        kept@ =~= s@.subrange(start as int, i as int),
                    decreases s.len() - i,
                {
                    kept.push(s[i]);
                    i = i + 1;
                }
                *s = kept;
            },
        }
    }
}

/// How long the two sequences of a pair may stay.
pub open spec fn pair_lengths(
    a: int,
    b: int,
    max: int,
    strategy: TruncationStrategy,
) -> (int, int) {
    if a + b <= max {
        (a, b)
    } else {
        match strategy {
            TruncationStrategy::OnlyFirst => (if b >= max {
                0
            } else {
                max - b
            }, b),
            TruncationStrategy::OnlySecond => (a, if a >= max {
                0
            } else {
                max - a
            }),
            TruncationStrategy::LongestFirst => {
                let (short, long) = if a > b {
                    (b, a)
                } else {
                    (a, b)
                };
                let rest = if short > max {
                    short
                } else if max - short > short {
                    max - short
                } else {
                    short
                };
                let (s, l) = if short + rest > max {
                    (max / 2, max / 2 + max % 2)
                } else {
                    (short, rest)
                };
                if a > b {
                    (l, s)
                } else {
                    (s, l)
                }
            },
        }
    }
}

/// A pair that is cut is as long as allowed, and neither of the two grows. A
/// sequence that may not be cut can stay too long on its own.
pub proof fn law_pair_lengths(a: int, b: int, max: int, strategy: TruncationStrategy)
    requires
        0 <= a,
        0 <= b,
        0 <= max,
    ensures
        ({
            let (x, y) = pair_lengths(a, b, max, strategy);
            &&& 0 <= x <= a
            &&& 0 <= y <= b
            &&& (strategy == TruncationStrategy::LongestFirst ==> x + y == if a + b <= max {
                a + b
            } else {
                max
            })
            &&& (x + y <= max || (strategy == TruncationStrategy::OnlyFirst && x == 0) || (strategy
                == TruncationStrategy::OnlySecond && y == 0))
        }),
{
}

/// Cut a pair of sequences to at most `max` tokens together.
pub fn truncate_pair(
    a: &mut Vec<TokenId>,
    b: &mut Vec<TokenId>,
    max: usize,
    strategy: TruncationStrategy,
    direction: TruncationDirection,
)
    ensures
        ({
            let (x, y) = pair_lengths(old(a)@.len() as int, old(b)@.len() as int, max as int, strategy);
            &&& final(a)@ == truncated(old(a)@, x, direction)
            &&& final(b)@ == truncated(old(b)@, y, direction)
        }),
{
    let la: usize = a.len();
    let lb: usize = b.len();
    if la <= max && lb <= max - la {
        return;
    }
    let mut x: usize = la;
    let mut y: usize = lb;
    match strategy {
        TruncationStrategy::OnlyFirst => {
            x = if lb >= max {
                0
            } else {
                max - lb
            };
        },
        TruncationStrategy::OnlySecond => {
            y = if la >= max {
                0
            } else {
                max - la
            };
        },
        TruncationStrategy::LongestFirst => {
            let short: usize = if la > lb {
                lb
            } else {
                la
            };
            let mut s: usize = short;
            let mut l: usize = if short > max {
                short
            } else if max - short > short {
                max - short
            } else {
                short
            };
            if short > max || l > max - short {
                s = max / 2;
                l = max / 2 + max % 2;
            }
            if la > lb {
                x = l;
                y = s;
            } else {
                x = s;
                y = l;
            }
        },
    }
    truncate_ids(a, x, direction);
    truncate_ids(b, y, direction);
}

// ---- filling ----

/// `n`, or the next multiple above it, as far as lengths can be counted.
pub open spec fn rounded_up(n: int, multiple: Option<usize>) -> int {
    match multiple {
        Some(m) => if m > 0 && n % (m as int) > 0 {
            if n + (m - n % (m as int)) <= usize::MAX {
                n + (m - n % (m as int))
            } else {
                usize::MAX as int
            }
        } else {
            n
        },
        None => n,
    }
}

/// A sequence filled with `x` to `n` entries.
pub open spec fn padded<T>(s: Seq<T>, n: int, x: T, direction: PaddingDirection) -> Seq<T> {
    if s.len() >= n {
        s
    } else {
        let fill = Seq::new((n - s.len()) as nat, |i: int| x);
        match direction {
            PaddingDirection::Right => s + fill,
            PaddingDirection::Left => fill + s,
        }
    }
}

fn pad_seq<T: Copy>(s: &mut Vec<T>, n: usize, x: T, direction: PaddingDirection)
    ensures
        final(s)@ == padded(old(s)@, n as int, x, direction),
{
    if s.len() >= n {
        return;
    }
    let k: usize = n - s.len();
    match direction {
        PaddingDirection::Right => {
            let mut i: usize = 0;
            while i < k
                invariant
                    i <= k,
                    s@ =~= old(s)@ + Seq::new(i as nat, |j: int| x),
                decreases k - i,
            {
                s.push(x);
                i = i + 1;
            }
        },
        PaddingDirection::Left => {
            let mut filled: Vec<T> = Vec::new();
            let mut i: usize = 0;
            while i < k
                invariant
                    i <= k,
                    s@ == old(s)@,
                    filled@ =~= Seq::new(i as nat, |j: int| x),
                decreases k - i,
            {
                filled.push(x);
                i = i + 1;
            }
            let mut j: usize = 0;
            while j < s.len()
                invariant
                    j <= s.len(),
                    s@ == old(s)@,
                    filled@ =~= Seq::new(k as nat, |j: int| x) + s@.subrange(0, j as int),
                decreases s.len() - j,
            {
                filled.push(s[j]);
                j = j + 1;
            }
            *s = filled;
        },
    }
}

/// An encoding filled to `n` tokens.
pub open spec fn padded_encoding(v: EncodingView, n: int, p: PaddingParams) -> EncodingView {
    let m = rounded_up(n, p.pad_to_multiple_of);
    EncodingView {
        ids: padded(v.ids, m, p.pad_id, p.direction),
        attention_mask: padded(v.attention_mask, m, 0, p.direction),
        type_ids: padded(v.type_ids, m, p.pad_type_id, p.direction),
        offsets: if v.offsets.len() == 0 {
            v.offsets
        } else {
            padded(v.offsets, m, (0usize, 0usize), p.direction)
        },
    }
}

/// What an encoding holds.
#[verifier::ext_equal]
pub struct EncodingView {
    pub ids: Seq<TokenId>,
    pub attention_mask: Seq<u8>,
    pub type_ids: Seq<u8>,
    pub offsets: Seq<(usize, usize)>,
}

/// An encoding of token ids alone.
pub open spec fn plain_encoding(ids: Seq<TokenId>) -> EncodingView {
    EncodingView {
        ids,
        attention_mask: postprocessor::repeated(1, ids.len()),
        type_ids: postprocessor::repeated(0, ids.len()),
        offsets: seq![],
    }
}

impl Encoding {
    /// What the encoding holds.
    pub open spec fn model(self) -> EncodingView {
        EncodingView {
            ids: self.ids@,
            attention_mask: self.attention_mask@,
            type_ids: self.type_ids@,
            offsets: self.offsets@,
        }
    }

    /// An encoding of one sequence.
    pub fn from_ids(ids: Vec<TokenId>) -> (r: Self)
        ensures
            r.model() == plain_encoding(ids@),
    {
        Self::from_ids_with_offsets(ids, Vec::new())
    }

    /// An encoding of one sequence whose place in the text is known.
    pub fn from_ids_with_offsets(ids: Vec<TokenId>, offsets: Vec<(usize, usize)>) -> (r: Self)
        ensures
            r.model() == (EncodingView { offsets: offsets@, ..plain_encoding(ids@) }),
    {
        let n: usize = ids.len();
        let mut attention_mask: Vec<u8> = Vec::new();
        push_repeated(&mut attention_mask, 1, n);
        let mut type_ids: Vec<u8> = Vec::new();
        push_repeated(&mut type_ids, 0, n);
        let r = Encoding { ids, attention_mask, type_ids, offsets };
        assert(r.model() =~= EncodingView { offsets: offsets@, ..plain_encoding(ids@) });
        r
    }

    /// An encoding of a pair of sequences.
    pub fn from_pair(ids: Vec<TokenId>, type_ids: Vec<u8>) -> (r: Self)
        ensures
            r.model() == (EncodingView { type_ids: type_ids@, ..plain_encoding(ids@) }),
    {
        let n: usize = ids.len();
        let mut attention_mask: Vec<u8> = Vec::new();
        push_repeated(&mut attention_mask, 1, n);
        let r = Encoding { ids, attention_mask, type_ids, offsets: Vec::new() };
        assert(r.model() =~= EncodingView { type_ids: type_ids@, ..plain_encoding(ids@) });
        r
    }
}

/// Round a length up to a multiple.
fn round_up(n: usize, multiple: Option<usize>) -> (r: usize)
    ensures
        r == rounded_up(n as int, multiple),
{
    match multiple {
        Some(m) => {
            if m > 0 && n % m > 0 {
                n.saturating_add(m - n % m)
            } else {
                n
            }
        },
        None => n,
    }
}

/// Fill an encoding to `n` tokens.
pub fn pad_encoding(e: &mut Encoding, n: usize, p: &PaddingParams)
    ensures
        final(e).model() == padded_encoding(old(e).model(), n as int, *p),
{
    let m: usize = round_up(n, p.pad_to_multiple_of);
    pad_seq(&mut e.ids, m, p.pad_id, p.direction);
    pad_seq(&mut e.attention_mask, m, 0, p.direction);
    pad_seq(&mut e.type_ids, m, p.pad_type_id, p.direction);
    if e.offsets.len() > 0 {
        pad_seq(&mut e.offsets, m, (0, 0), p.direction);
    }
}

/// The length of the longest encoding.
pub open spec fn longest(es: Seq<EncodingView>) -> int
    decreases es.len(),
{
    if es.len() == 0 {
        0
    } else {
        let l = longest(es.drop_last());
        if es.last().ids.len() > l {
            es.last().ids.len() as int
        } else {
            l
        }
    }
}

/// What encodings hold.
pub open spec fn encoding_views(es: Seq<Encoding>) -> Seq<EncodingView> {
    Seq::new(es.len(), |i: int| es[i].model())
}

/// The encodings of a batch, filled to one length.
pub open spec fn padded_batch(es: Seq<EncodingView>, p: PaddingParams) -> Seq<EncodingView> {
    Seq::new(es.len(), |i: int| padded_encoding(es[i], batch_length(es, p), p))
}

/// To which length the encodings of a batch are filled.
pub open spec fn batch_length(es: Seq<EncodingView>, p: PaddingParams) -> int {
    match p.strategy {
        PaddingStrategy::BatchLongest => longest(es),
        PaddingStrategy::Fixed(n) => n as int,
    }
}

/// Fill the encodings of a batch to one length.
pub fn pad_batch(es: &mut Vec<Encoding>, p: &PaddingParams)
    ensures
        encoding_views(final(es)@) == padded_batch(encoding_views(old(es)@), *p),
{
    let ghost all = encoding_views(es@);
    let n: usize = match p.strategy {
        PaddingStrategy::Fixed(n) => n,
        PaddingStrategy::BatchLongest => {
            let mut l: usize = 0;
            let mut i: usize = 0;
            assert(all.subrange(0, 0) =~= seq![]);
            while i < es.len()
                invariant
                    i <= es.len(),
                    encoding_views(es@) == all,
                    l as int == longest(all.subrange(0, i as int)),
                decreases es.len() - i,
            {
                proof {
                    let s = all.subrange(0, i + 1);
                    assert(s.drop_last() =~= all.subrange(0, i as int));
                    assert(s.last() == all[i as int]);
                }
                if es[i].ids.len() > l {
                    l = es[i].ids.len();
                }
                i = i + 1;
            }
            assert(all.subrange(0, all.len() as int) =~= all);
            l
        },
    };
    let mut out: Vec<Encoding> = Vec::new();
    let mut i: usize = 0;
    while i < es.len()
        invariant
            i <= es.len(),
            encoding_views(es@) == all,
            n as int == batch_length(all, *p),
            out@.len() == i,
            forall|j: int|
                0 <= j < i ==> (#[trigger] out@[j]).model() == padded_encoding(
                    all[j],
                    n as int,
                    *p,
                ),
        decreases es.len() - i,
    {
        let mut e = copy_encoding(&es[i]);
        assert(e.model() == all[i as int]);
        pad_encoding(&mut e, n, p);
        out.push(e);
        i = i + 1;
    }
    *es = out;
    assert(encoding_views(es@) =~= padded_batch(all, *p));
}

/// A copy of an encoding.
fn copy_encoding(e: &Encoding) -> (r: Encoding)
    ensures
        r.model() == e.model(),
{
    let r = Encoding {
        ids: slice_to_vec(e.ids.as_slice()),
        attention_mask: slice_to_vec(e.attention_mask.as_slice()),
        type_ids: slice_to_vec(e.type_ids.as_slice()),
        offsets: slice_to_vec(e.offsets.as_slice()),
    };
    assert(r.model() =~= e.model());
    r
}

/// An encoding that is filled and was not too long has the length asked for.
pub proof fn law_padded_length(v: EncodingView, n: int, p: PaddingParams)
    requires
        v.ids.len() <= n <= usize::MAX,
    ensures
        padded_encoding(v, n, p).ids.len() == rounded_up(n, p.pad_to_multiple_of),
        n <= rounded_up(n, p.pad_to_multiple_of),
{
    if let Some(m) = p.pad_to_multiple_of {
        if m > 0 {
            vstd::arithmetic::div_mod::lemma_mod_bound(n, m as int);
        }
    }
}

proof fn lemma_longest(es: Seq<EncodingView>, i: int)
    requires
        0 <= i < es.len(),
    ensures
        es[i].ids.len() <= longest(es),
    decreases es.len(),
{
    if i < es.len() - 1 {
        lemma_longest(es.drop_last(), i);
        assert(es.drop_last()[i] == es[i]);
    }
}

/// The encodings of a batch that is filled to its longest all have one length.
pub proof fn law_batch_has_one_length(es: Seq<EncodingView>, p: PaddingParams, i: int)
    requires
        p.strategy == PaddingStrategy::BatchLongest,
        0 <= i < es.len(),
        longest(es) <= usize::MAX,
    ensures
        padded_batch(es, p)[i].ids.len() == rounded_up(longest(es), p.pad_to_multiple_of),
{
    lemma_longest(es, i);
    law_padded_length(es[i], longest(es), p);
}

} // verus!
