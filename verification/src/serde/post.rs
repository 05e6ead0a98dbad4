//! The section of a post-processor.
use crate::bytes;
use crate::bytes::{push_u32, read_u32};
use crate::postprocessor;
use crate::postprocessor::PostProcessor;
use crate::serde::codec;
use crate::serde::codec::{push_words, read_words};
use crate::types::TokenId;
use vstd::prelude::*;

verus! {

/// The number that stands for the kind of a post-processor.
pub open spec fn post_id(p: PostProcessor) -> u32 {
    match p {
        PostProcessor::Absent => 0,
        PostProcessor::Bert { .. } => 1,
        PostProcessor::Prefix { .. } => 2,
        PostProcessor::Template { .. } => 3,
    }
}

/// A list behind its length.
pub open spec fn list_words(v: Seq<TokenId>) -> Seq<u32> {
    seq![v.len() as u32] + v
}

/// The numbers in the section of a post-processor.
pub open spec fn post_words(p: PostProcessor) -> Seq<u32> {
    match p {
        PostProcessor::Absent => seq![],
        PostProcessor::Bert { cls_token, sep_token } => seq![cls_token, sep_token],
        PostProcessor::Prefix { bos_token } => seq![bos_token],
        PostProcessor::Template { .. } => {
            let f = p.frame();
            list_words(f.single_prefix) + list_words(f.single_suffix) + list_words(f.pair_a_prefix)
                + list_words(f.pair_a_suffix) + list_words(f.pair_b_prefix) + list_words(
                f.pair_b_suffix,
            )
        },
    }
}

/// The list that stands at `p` behind its length, and where it ends.
pub open spec fn list_at(d: Seq<u8>, p: int) -> Option<(Seq<TokenId>, int)> {
    if p + 4 > d.len() {
        None
    } else {
        let n = bytes::u32_at(d, p) as int;
        if p + 4 + 4 * n > d.len() {
            None
        } else {
            Some((codec::words_at(d, p + 4, n), p + 4 + 4 * n))
        }
    }
}

/// The `n` lists from `p` on.
pub open spec fn lists_at(d: Seq<u8>, p: int, n: int) -> Option<Seq<Seq<TokenId>>>
    decreases n,
{
    if n <= 0 {
        Some(seq![])
    } else {
        match list_at(d, p) {
            None => None,
            Some((v, e)) => match lists_at(d, e, n - 1) {
                None => None,
                Some(rest) => Some(seq![v] + rest),
            },
        }
    }
}

/// The special tokens that a section of the kind `id` holds.
pub open spec fn post_frame(id: u32, d: Seq<u8>) -> Option<postprocessor::Frame> {
    if id == 0 {
        Some(PostProcessor::Absent.frame())
    } else if id == 1 {
        if d.len() < 8 {
            None
        } else {
            Some(
                (PostProcessor::Bert {
                    cls_token: bytes::u32_at(d, 0),
                    sep_token: bytes::u32_at(d, 4),
                }).frame(),
            )
        }
    } else if id == 2 {
        if d.len() < 4 {
            None
        } else {
            Some((PostProcessor::Prefix { bos_token: bytes::u32_at(d, 0) }).frame())
        }
    } else if id == 3 {
        match lists_at(d, 0, 6) {
            None => None,
            Some(v) => Some(
                postprocessor::Frame {
                    single_prefix: v[0],
                    single_suffix: v[1],
                    pair_a_prefix: v[2],
                    pair_a_suffix: v[3],
                    pair_b_prefix: v[4],
                    pair_b_suffix: v[5],
                },
            ),
        }
    } else {
        None
    }
}

/// A list that was written is read.
proof fn lemma_list(before: Seq<u8>, v: Seq<TokenId>, behind: Seq<u8>)
    requires
        v.len() <= u32::MAX,
    ensures
        list_at(before + codec::words_bytes(list_words(v)) + behind, before.len() as int) == Some(
            (v, (before.len() + 4 + 4 * v.len()) as int),
        ),
        codec::words_bytes(list_words(v)).len() == 4 + 4 * v.len(),
{
    let w = list_words(v);
    let d = before + codec::words_bytes(w) + behind;
    let p = before.len() as int;
    codec::lemma_words_len(w);
    codec::law_words_are_read_back(before, w, behind);
    let all = codec::words_at(d, p, w.len() as int);
    assert(all[0] == w[0]);
    assert(codec::words_at(d, p + 4, v.len() as int) =~= v) by {
        assert forall|i: int| 0 <= i < v.len() implies #[trigger] codec::words_at(
            d,
            p + 4,
            v.len() as int,
        )[i] == v[i] by {
            assert(all[i + 1] == w[i + 1]);
        }
    }
}

/// The bytes of numbers behind other numbers.
pub proof fn lemma_words_concat(a: Seq<u32>, b: Seq<u32>)
    ensures
        codec::words_bytes(a + b) == codec::words_bytes(a) + codec::words_bytes(b),
    decreases b.len(),
{
    if b.len() == 0 {
        assert(a + b =~= a);
        assert(codec::words_bytes(a) + codec::words_bytes(b) =~= codec::words_bytes(a));
    } else {
        lemma_words_concat(a, b.drop_last());
        assert((a + b).drop_last() =~= a + b.drop_last());
        assert(codec::words_bytes(a + b) =~= codec::words_bytes(a) + codec::words_bytes(b));
    }
}

/// The lists of a template, in order.
spec fn template_lists(f: postprocessor::Frame) -> Seq<Seq<TokenId>> {
    seq![
        f.single_prefix,
        f.single_suffix,
        f.pair_a_prefix,
        f.pair_a_suffix,
        f.pair_b_prefix,
        f.pair_b_suffix,
    ]
}

/// The numbers of lists from the `i`th on.
spec fn lists_words(v: Seq<Seq<TokenId>>, i: int) -> Seq<u32>
    decreases v.len() - i,
{
    if i < 0 || i >= v.len() {
        seq![]
    } else {
        list_words(v[i]) + lists_words(v, i + 1)
    }
}

/// Lists that were written are read.
proof fn lemma_lists(before: Seq<u8>, v: Seq<Seq<TokenId>>, i: int)
    requires
        0 <= i <= v.len(),
        forall|k: int| 0 <= k < v.len() ==> (#[trigger] v[k]).len() <= u32::MAX,
    ensures
        lists_at(
            before + codec::words_bytes(lists_words(v, i)),
            before.len() as int,
            v.len() - i,
        ) == Some(v.subrange(i, v.len() as int)),
    decreases v.len() - i,
{
    let d = before + codec::words_bytes(lists_words(v, i));
    if i < v.len() {
        let head = codec::words_bytes(list_words(v[i]));
        let rest = codec::words_bytes(lists_words(v, i + 1));
        lemma_words_concat(list_words(v[i]), lists_words(v, i + 1));
        lemma_list(before, v[i], rest);
        assert(d =~= before + head + rest);
        assert(d =~= (before + head) + rest);
        lemma_lists(before + head, v, i + 1);
        assert(seq![v[i]] + v.subrange(i + 1, v.len() as int) =~= v.subrange(i, v.len() as int));
    } else {
        assert(v.subrange(i, v.len() as int) =~= seq![]);
    }
}

/// The length of each list can be written.
pub open spec fn lists_fit(f: postprocessor::Frame) -> bool {
    &&& f.single_prefix.len() <= u32::MAX
    &&& f.single_suffix.len() <= u32::MAX
    &&& f.pair_a_prefix.len() <= u32::MAX
    &&& f.pair_a_suffix.len() <= u32::MAX
    &&& f.pair_b_prefix.len() <= u32::MAX
    &&& f.pair_b_suffix.len() <= u32::MAX
}

/// A post-processor that was written is read.
pub proof fn law_post_is_read_back(p: PostProcessor)
    requires
        lists_fit(p.frame()),
    ensures
        post_frame(post_id(p), codec::words_bytes(post_words(p))) == Some(p.frame()),
{
    let w = post_words(p);
    let d = codec::words_bytes(w);
    codec::lemma_words_len(w);
    assert(d =~= Seq::<u8>::empty() + d + Seq::<u8>::empty());
    codec::law_words_are_read_back(Seq::<u8>::empty(), w, Seq::<u8>::empty());
    let all = codec::words_at(d, 0, w.len() as int);
    match p {
        PostProcessor::Absent => {},
        PostProcessor::Bert { cls_token, sep_token } => {
            assert(all[0] == cls_token);
            assert(all[1] == sep_token);
        },
        PostProcessor::Prefix { bos_token } => {
            assert(all[0] == bos_token);
        },
        PostProcessor::Template { .. } => {
            let f = p.frame();
            let v = template_lists(f);
            reveal_with_fuel(lists_words, 7);
            assert(lists_words(v, 0) =~= w);
            assert(Seq::<u8>::empty() + d =~= d);
            lemma_lists(Seq::<u8>::empty(), v, 0);
            assert(v.subrange(0, 6) =~= v);
            let r = lists_at(d, 0, 6)->0;
            assert(r == v);
        },
    }
}

/// A post-processor is fixed by its kind and its frame: two that share both
/// are the same, list by list.
pub proof fn law_post_is_its_frame(p: PostProcessor, q: PostProcessor)
    requires
        post_id(p) == post_id(q),
        p.frame() == q.frame(),
    ensures
        match p {
            PostProcessor::Absent => q is Absent,
            PostProcessor::Bert { .. } => q == p,
            PostProcessor::Prefix { .. } => q == p,
            PostProcessor::Template {
                single_prefix,
                single_suffix,
                pair_a_prefix,
                pair_a_suffix,
                pair_b_prefix,
                pair_b_suffix,
            } => {
                &&& q is Template
                &&& q->single_prefix@ == single_prefix@
                &&& q->single_suffix@ == single_suffix@
                &&& q->pair_a_prefix@ == pair_a_prefix@
                &&& q->pair_a_suffix@ == pair_a_suffix@
                &&& q->pair_b_prefix@ == pair_b_prefix@
                &&& q->pair_b_suffix@ == pair_b_suffix@
            },
        },
{
    match p {
        PostProcessor::Bert { cls_token, sep_token } => {
            assert(p.frame().single_prefix[0] == cls_token);
            assert(p.frame().single_suffix[0] == sep_token);
            assert(q.frame().single_prefix[0] == q->cls_token);
            assert(q.frame().single_suffix[0] == q->sep_token);
        },
        PostProcessor::Prefix { bos_token } => {
            assert(p.frame().single_prefix[0] == bos_token);
            assert(q.frame().single_prefix[0] == q->bos_token);
        },
        _ => {},
    }
}

/// Of lists that were cut short, not all are read.
proof fn lemma_lists_cut(before: Seq<u8>, v: Seq<Seq<TokenId>>, i: int, k: int)
    requires
        0 <= i <= v.len(),
        forall|j: int| 0 <= j < v.len() ==> (#[trigger] v[j]).len() <= u32::MAX,
        before.len() <= k < (before + codec::words_bytes(lists_words(v, i))).len(),
    ensures
        lists_at(
            (before + codec::words_bytes(lists_words(v, i))).subrange(0, k),
            before.len() as int,
            v.len() - i,
        ) is None,
    decreases v.len() - i,
{
    let d = before + codec::words_bytes(lists_words(v, i));
    let cut = d.subrange(0, k);
    let p = before.len() as int;
    if i < v.len() {
        let head = codec::words_bytes(list_words(v[i]));
        let rest = codec::words_bytes(lists_words(v, i + 1));
        lemma_words_concat(list_words(v[i]), lists_words(v, i + 1));
        lemma_list(before, v[i], rest);
        assert(d =~= before + head + rest);
        if p + 4 <= k {
            assert(cut.subrange(p, p + 4) =~= d.subrange(p, p + 4));
            if p + 4 + 4 * v[i].len() <= k {
                assert(d =~= (before + head) + rest);
                lemma_lists_cut(before + head, v, i + 1, k);
            }
        }
    } else {
        assert(codec::words_bytes(lists_words(v, i)) =~= seq![]);
    }
}

/// A section that was cut short is refused, where the post-processor has one.
pub proof fn law_cut_post_is_refused(p: PostProcessor, k: int)
    requires
        lists_fit(p.frame()),
        0 <= k < codec::words_bytes(post_words(p)).len(),
    ensures
        post_frame(post_id(p), codec::words_bytes(post_words(p)).subrange(0, k)) is None,
{
    let w = post_words(p);
    let d = codec::words_bytes(w);
    codec::lemma_words_len(w);
    match p {
        PostProcessor::Template { .. } => {
            let v = template_lists(p.frame());
            reveal_with_fuel(lists_words, 7);
            assert(lists_words(v, 0) =~= w);
            assert(Seq::<u8>::empty() + d =~= d);
            lemma_lists_cut(Seq::<u8>::empty(), v, 0, k);
        },
        _ => {},
    }
}

/// Append a list behind its length.
fn push_list(out: &mut Vec<u8>, v: &Vec<TokenId>)
    ensures
        final(out)@ == old(out)@ + codec::words_bytes(list_words(v@)),
{
    proof {
        let n = seq![v@.len() as u32];
        lemma_words_concat(n, v@);
        assert(n.drop_last() =~= seq![]);
        assert(codec::words_bytes(n.drop_last()) =~= seq![]);
        assert(codec::words_bytes(n) =~= bytes::u32_bytes(n.last()));
    }
    push_u32(out, v.len() as u32);
    push_words(out, v.as_slice());
    assert(out@ =~= old(out)@ + codec::words_bytes(list_words(v@)));
}

/// The list at `p`, and where it ends.
fn read_list(d: &[u8], p: usize) -> (r: Option<(Vec<TokenId>, usize)>)
    requires
        p <= d@.len(),
    ensures
        match r {
            Some(x) => list_at(d@, p as int) == Some((x.0@, x.1 as int)) && x.1 <= d@.len(),
            None => list_at(d@, p as int) is None,
        },
{
    if d.len() - p < 4 {
        return None;
    }
    let n: usize = read_u32(d, p) as usize;
    if (d.len() - p - 4) / 4 < n {
        return None;
    }
    let v = read_words(d, p + 4, n);
    Some((v, p + 4 + 4 * n))
}

impl PostProcessor {
    /// The number that stands for the kind in a file.
    pub fn type_id(&self) -> (r: u32)
        ensures
            r == post_id(*self),
    {
        match self {
            PostProcessor::Absent => 0,
            PostProcessor::Bert { .. } => 1,
            PostProcessor::Prefix { .. } => 2,
            PostProcessor::Template { .. } => 3,
        }
    }

    /// The parameters as bytes.
    pub fn serialize(&self) -> (r: Vec<u8>)
        ensures
            r@ == codec::words_bytes(post_words(*self)),
    {
        let mut buf: Vec<u8> = Vec::new();
        match self {
            PostProcessor::Absent => {
                assert(buf@ =~= codec::words_bytes(post_words(*self)));
            },
            PostProcessor::Bert { cls_token, sep_token } => {
                let words: [u32; 2] = [*cls_token, *sep_token];
                push_words(&mut buf, words.as_slice());
                assert(words@ =~= post_words(*self));
                assert(buf@ =~= codec::words_bytes(post_words(*self)));
            },
            PostProcessor::Prefix { bos_token } => {
                let words: [u32; 1] = [*bos_token];
                push_words(&mut buf, words.as_slice());
                assert(words@ =~= post_words(*self));
                assert(buf@ =~= codec::words_bytes(post_words(*self)));
            },
            PostProcessor::Template {
                single_prefix,
                single_suffix,
                pair_a_prefix,
                pair_a_suffix,
                pair_b_prefix,
                pair_b_suffix,
            } => {
                push_list(&mut buf, single_prefix);
                push_list(&mut buf, single_suffix);
                push_list(&mut buf, pair_a_prefix);
                push_list(&mut buf, pair_a_suffix);
                push_list(&mut buf, pair_b_prefix);
                push_list(&mut buf, pair_b_suffix);
                proof {
                    let a = list_words(single_prefix@);
                    let b = list_words(single_suffix@);
                    let c = list_words(pair_a_prefix@);
                    let d = list_words(pair_a_suffix@);
                    let e = list_words(pair_b_prefix@);
                    let f = list_words(pair_b_suffix@);
                    lemma_words_concat(a, b);
                    lemma_words_concat(a + b, c);
                    lemma_words_concat(a + b + c, d);
                    lemma_words_concat(a + b + c + d, e);
                    lemma_words_concat(a + b + c + d + e, f);
                    assert(buf@ =~= codec::words_bytes(post_words(*self)));
                }
            },
        }
        buf
    }

    /// The post-processor of a kind with these parameters; `None` where they
    /// are too short or the kind is unknown.
    pub fn deserialize(type_id: u32, data: &[u8]) -> (r: Option<Self>)
        ensures
            match r {
                Some(p) => post_id(p) == type_id && post_frame(type_id, data@) == Some(p.frame()),
                None => post_frame(type_id, data@) is None,
            },
    {
        if type_id == 0 {
            return Some(PostProcessor::Absent);
        }
        if type_id == 1 {
            if data.len() < 8 {
                return None;
            }
            return Some(
                PostProcessor::Bert { cls_token: read_u32(data, 0), sep_token: read_u32(data, 4) },
            );
        }
        if type_id == 2 {
            if data.len() < 4 {
                return None;
            }
            return Some(PostProcessor::Prefix { bos_token: read_u32(data, 0) });
        }
        if type_id != 3 {
            return None;
        }
        proof {
            reveal_with_fuel(lists_at, 7);
        }
        let (single_prefix, a) = match read_list(data, 0) {
            Some(x) => x,
            None => return None,
        };
        let (single_suffix, b) = match read_list(data, a) {
            Some(x) => x,
            None => return None,
        };
        let (pair_a_prefix, c) = match read_list(data, b) {
            Some(x) => x,
            None => return None,
        };
        let (pair_a_suffix, d) = match read_list(data, c) {
            Some(x) => x,
            None => return None,
        };
        let (pair_b_prefix, e) = match read_list(data, d) {
            Some(x) => x,
            None => return None,
        };
        let (pair_b_suffix, _) = match read_list(data, e) {
            Some(x) => x,
            None => return None,
        };
        proof {
            let v = lists_at(data@, 0, 6)->0;
            assert(v[0] == single_prefix@);
            assert(v[1] == single_suffix@);
            assert(v[2] == pair_a_prefix@);
            assert(v[3] == pair_a_suffix@);
            assert(v[4] == pair_b_prefix@);
            assert(v[5] == pair_b_suffix@);
        }
        Some(
            PostProcessor::Template {
                single_prefix,
                single_suffix,
                pair_a_prefix,
                pair_a_suffix,
                pair_b_prefix,
                pair_b_suffix,
            },
        )
    }
}

} // verus!
