//! How sequences are cut and filled to a length, and what stands around them.
use crate::padding;
use crate::padding::{
    EncodingView, PaddingDirection, PaddingParams, PaddingStrategy, TruncationDirection,
    TruncationStrategy,
};
use crate::types::TokenId;
use vstd::prelude::*;

verus! {

// ---- cutting ----

/// A cut sequence is its own first entries, or its own last ones, and no more
/// is cut than must be.
pub proof fn law_cut_keeps_one_end<T>(s: Seq<T>, max: int)
    requires
        0 <= max,
    ensures
        padding::truncated(s, max, TruncationDirection::Right).is_prefix_of(s),
        padding::truncated(s, max, TruncationDirection::Left).is_suffix_of(s),
        forall|d: TruncationDirection|
            s.len() <= max ==> #[trigger] padding::truncated(s, max, d) == s,
        forall|d: TruncationDirection|
            max <= s.len() ==> #[trigger] padding::truncated(s, max, d).len() == max,
{
}

/// A pair that fits stays as it is.
pub proof fn law_fitting_pair_is_kept(a: int, b: int, max: int, strategy: TruncationStrategy)
    requires
        a + b <= max,
    ensures
        padding::pair_lengths(a, b, max, strategy) == (a, b),
{
}

/// Where the longer sequence gives way first, the two stay as even as can be:
/// one that was cut is no more than one token shorter than the other, and the
/// one that was longer is not shorter at all. Of two that are equally long it
/// is the second.
pub proof fn law_longest_gives_way_first(a: int, b: int, max: int)
    requires
        0 <= a,
        0 <= b,
        0 <= max,
    ensures
        ({
            let (x, y) = padding::pair_lengths(a, b, max, TruncationStrategy::LongestFirst);
            &&& 0 <= x <= a
            &&& 0 <= y <= b
            &&& (a + b > max ==> x + y == max)
            &&& (x < a ==> x + 1 >= y)
            &&& (y < b ==> y + 1 >= x)
            &&& (a > b && x < a ==> x >= y)
            &&& (a <= b && y < b ==> y >= x)
        }),
{
}

/// No other lengths are as even and keep as much.
pub proof fn law_longest_first_is_determined(a: int, b: int, max: int, x: int, y: int)
    requires
        0 <= x <= a,
        0 <= y <= b,
        x + y == max,
        a + b > max,
        x < a ==> x + 1 >= y,
        y < b ==> y + 1 >= x,
        a > b && x < a ==> x >= y,
        a <= b && y < b ==> y >= x,
        0 <= max,
    ensures
        padding::pair_lengths(a, b, max, TruncationStrategy::LongestFirst) == (x, y),
{
}

/// Where only one sequence gives way, the other stays whole, and the first is
/// cut by what is too much and no more.
pub proof fn law_only_one_gives_way(a: int, b: int, max: int)
    requires
        0 <= a,
        0 <= b,
        0 <= max,
    ensures
        ({
            let (x, y) = padding::pair_lengths(a, b, max, TruncationStrategy::OnlyFirst);
            &&& y == b
            &&& 0 <= x <= a
            &&& (b <= max <= a + b ==> x + y == max)
            &&& (b >= max && a + b > max ==> x == 0)
        }),
        ({
            let (x, y) = padding::pair_lengths(a, b, max, TruncationStrategy::OnlySecond);
            &&& x == a
            &&& 0 <= y <= b
            &&& (a <= max <= a + b ==> x + y == max)
            &&& (a >= max && a + b > max ==> y == 0)
        }),
{
}

/// The lengths do not hang on the order of the pair, but for the odd token of
/// two that are equally long.
pub proof fn law_pair_lengths_mirror(a: int, b: int, max: int)
    requires
        0 <= a,
        0 <= b,
        0 <= max,
        a != b,
    ensures
        ({
            let (x, y) = padding::pair_lengths(a, b, max, TruncationStrategy::LongestFirst);
            padding::pair_lengths(b, a, max, TruncationStrategy::LongestFirst) == (y, x)
        }),
        ({
            let (x, y) = padding::pair_lengths(a, b, max, TruncationStrategy::OnlyFirst);
            padding::pair_lengths(b, a, max, TruncationStrategy::OnlySecond) == (y, x)
        }),
{
}

// ---- filling ----

/// A filled sequence is the sequence with the filling at one end.
pub proof fn law_filling_is_at_one_end<T>(s: Seq<T>, n: int, x: T)
    ensures
        s.is_prefix_of(padding::padded(s, n, x, PaddingDirection::Right)),
        s.is_suffix_of(padding::padded(s, n, x, PaddingDirection::Left)),
        forall|i: int|
            s.len() <= i < n ==> #[trigger] padding::padded(s, n, x, PaddingDirection::Right)[i]
                == x,
        forall|i: int|
            0 <= i < n - s.len() ==> #[trigger] padding::padded(
                s,
                n,
                x,
                PaddingDirection::Left,
            )[i] == x,
        forall|d: PaddingDirection|
            s.len() <= n ==> #[trigger] padding::padded(s, n, x, d).len() == n,
        forall|d: PaddingDirection|
            n <= s.len() ==> #[trigger] padding::padded(s, n, x, d) == s,
{
    let r = padding::padded(s, n, x, PaddingDirection::Right);
    let l = padding::padded(s, n, x, PaddingDirection::Left);
    assert(s =~= r.subrange(0, s.len() as int));
    assert(s =~= l.subrange(l.len() - s.len(), l.len() as int));
}

/// A length is rounded up to a multiple, to the next one, as far as lengths
/// can be counted.
pub proof fn law_rounded_to_the_next_multiple(n: int, m: usize)
    requires
        0 <= n,
        m > 0,
        n + m <= usize::MAX,
    ensures
        padding::rounded_up(n, Some(m)) % (m as int) == 0,
        n <= padding::rounded_up(n, Some(m)) < n + m,
        padding::rounded_up(n, None) == n,
        padding::rounded_up(n, Some(0)) == n,
{
    vstd::arithmetic::div_mod::lemma_mod_bound(n, m as int);
    vstd::arithmetic::div_mod::lemma_fundamental_div_mod(n, m as int);
    let q = n / (m as int);
    if n % (m as int) > 0 {
        assert(padding::rounded_up(n, Some(m)) == m * q + m);
        assert(m * q + m == (q + 1) * m) by (nonlinear_arith);
        vstd::arithmetic::div_mod::lemma_mod_multiples_basic(q + 1, m as int);
    }
}

/// The mask of a filled encoding tells the text from the filling: the tokens
/// that it marks are the tokens there were, in their order, and the others are
/// the token for filling.
pub proof fn law_mask_marks_the_text(ids: Seq<TokenId>, n: int, p: PaddingParams)
    requires
        0 <= n <= usize::MAX,
    ensures
        ({
            let e = padding::padded_encoding(padding::plain_encoding(ids), n, p);
            &&& e.attention_mask.len() == e.ids.len()
            &&& e.type_ids.len() == e.ids.len()
            &&& e.ids.len() >= n
            &&& forall|i: int|
                0 <= i < e.ids.len() ==> (#[trigger] e.attention_mask[i] == 1
                    || e.attention_mask[i] == 0)
            &&& forall|i: int|
                0 <= i < e.ids.len() && #[trigger] e.attention_mask[i] == 0 ==> e.ids[i]
                    == p.pad_id && e.type_ids[i] == p.pad_type_id
            &&& forall|i: int|
                0 <= i < e.ids.len() && #[trigger] e.attention_mask[i] == 1 ==> e.type_ids[i] == 0
            &&& (p.direction == PaddingDirection::Right ==> forall|i: int|
                0 <= i < ids.len() ==> e.ids[i] == #[trigger] ids[i] && e.attention_mask[i] == 1)
            &&& (p.direction == PaddingDirection::Left ==> forall|i: int|
                0 <= i < ids.len() ==> e.ids[e.ids.len() - ids.len() + i] == #[trigger] ids[i]
                    && e.attention_mask[e.ids.len() - ids.len() + i] == 1)
            &&& forall|i: int|
                0 <= i < e.ids.len() && #[trigger] e.attention_mask[i] == 1 ==> (if p.direction
                    == PaddingDirection::Right {
                    i < ids.len()
                } else {
                    i >= e.ids.len() - ids.len()
                })
        }),
{
    if let Some(m) = p.pad_to_multiple_of {
        if m > 0 {
            vstd::arithmetic::div_mod::lemma_mod_bound(n, m as int);
        }
    }
}

/// The longest encoding of a batch is one of them, and none is longer.
pub proof fn law_longest_is_one_of_them(es: Seq<EncodingView>)
    ensures
        forall|i: int| 0 <= i < es.len() ==> (#[trigger] es[i]).ids.len() <= padding::longest(es),
        es.len() > 0 ==> exists|i: int|
            0 <= i < es.len() && (#[trigger] es[i]).ids.len() == padding::longest(es),
        es.len() == 0 ==> padding::longest(es) == 0,
    decreases es.len(),
{
    if es.len() > 0 {
        let init = es.drop_last();
        law_longest_is_one_of_them(init);
        assert forall|i: int| 0 <= i < es.len() implies (#[trigger] es[i]).ids.len()
            <= padding::longest(es) by {
            if i < init.len() {
                assert(init[i] == es[i]);
            }
        }
        if es.last().ids.len() == padding::longest(es) {
            assert(es[es.len() - 1].ids.len() == padding::longest(es));
        } else {
            assert(init.len() > 0);
            let i = choose|i: int|
                0 <= i < init.len() && (#[trigger] init[i]).ids.len() == padding::longest(init);
            assert(es[i].ids.len() == padding::longest(es));
        }
    }
}

/// A batch is filled encoding by encoding: to the given length, or to that of
/// its longest.
pub proof fn law_batch_is_filled_one_by_one(es: Seq<EncodingView>, p: PaddingParams, i: int)
    requires
        0 <= i < es.len(),
    ensures
        padding::padded_batch(es, p).len() == es.len(),
        p.strategy matches PaddingStrategy::Fixed(n) ==> padding::padded_batch(es, p)[i]
            == padding::padded_encoding(es[i], n as int, p),
        p.strategy is BatchLongest ==> exists|j: int|
            0 <= j < es.len() && padding::padded_batch(es, p)[i] == padding::padded_encoding(
                es[i],
                (#[trigger] es[j]).ids.len() as int,
                p,
            ),
{
    law_longest_is_one_of_them(es);
}

} // verus!
