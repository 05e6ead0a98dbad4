//! Order by keys, in which equal keys keep their places.
use vstd::prelude::*;

verus! {

/// The place `a` comes before the place `b`: by key, and of two with one key
/// the earlier place first.
pub open spec fn comes_before(keys: Seq<u32>, a: usize, b: usize) -> bool {
    let x = keys[a as int];
    let y = keys[b as int];
    x < y || (x == y && a < b)
}

/// The places `lo..hi`, each once, in order of their keys.
pub open spec fn in_order(keys: Seq<u32>, o: Seq<usize>, lo: int, hi: int) -> bool {
    &&& o.len() == hi - lo
    &&& forall|i: int| 0 <= i < o.len() ==> lo <= #[trigger] o[i] < hi
    &&& forall|i: int, j: int| 0 <= i < j < o.len() ==> comes_before(keys, o[i], o[j])
}

/// The places of the keys, in order of the keys; equal keys keep their order.
pub open spec fn places(keys: Seq<u32>) -> Seq<usize> {
    choose|o: Seq<usize>| in_order(keys, o, 0, keys.len() as int)
}

/// The places of the keys in order.
pub fn sort_keys(keys: &[u32]) -> (r: Vec<usize>)
    ensures
        in_order(keys@, r@, 0, keys@.len() as int),
        r@ == places(keys@),
{
    let r = sort_range(keys, 0, keys.len());
    proof {
        law_one_order(keys@, r@, places(keys@), keys@.len() as int);
    }
    r
}

/// A place among places in order of their keys.
spec fn placed(keys: Seq<u32>, o: Seq<usize>, k: usize) -> Seq<usize>
    decreases o.len(),
{
    if o.len() == 0 || keys[o.last() as int] <= keys[k as int] {
        o.push(k)
    } else {
        placed(keys, o.drop_last(), k).push(o.last())
    }
}

proof fn lemma_placed(keys: Seq<u32>, o: Seq<usize>, k: usize)
    requires
        k < keys.len(),
        forall|i: int| 0 <= i < o.len() ==> #[trigger] o[i] < k,
        forall|i: int, j: int| 0 <= i < j < o.len() ==> comes_before(keys, o[i], o[j]),
    ensures
        placed(keys, o, k).len() == o.len() + 1,
        forall|i: int|
            0 <= i <= o.len() ==> (#[trigger] placed(keys, o, k)[i] == k || o.contains(
                placed(keys, o, k)[i],
            )),
        forall|i: int, j: int|
            0 <= i < j <= o.len() ==> comes_before(
                keys,
                placed(keys, o, k)[i],
                placed(keys, o, k)[j],
            ),
    decreases o.len(),
{
    let r = placed(keys, o, k);
    if o.len() == 0 || keys[o.last() as int] <= keys[k as int] {
        assert forall|i: int| 0 <= i <= o.len() implies (#[trigger] r[i] == k || o.contains(
            r[i],
        )) by {
            if i < o.len() {
                assert(r[i] == o[i]);
            }
        }
        assert forall|i: int, j: int| 0 <= i < j <= o.len() implies comes_before(
            keys,
            r[i],
            r[j],
        ) by {
            assert(r[i] == o[i]);
            if j == o.len() {
                if i < o.len() - 1 {
                    assert(comes_before(keys, o[i], o[o.len() - 1]));
                }
            } else {
                assert(r[j] == o[j]);
            }
        }
    } else {
        let front = o.drop_last();
        let q = placed(keys, front, k);
        assert forall|i: int, j: int| 0 <= i < j < front.len() implies comes_before(
            keys,
            front[i],
            front[j],
        ) by {
            assert(front[i] == o[i] && front[j] == o[j]);
        }
        lemma_placed(keys, front, k);
        assert forall|i: int| 0 <= i <= o.len() implies (#[trigger] r[i] == k || o.contains(
            r[i],
        )) by {
            if i < o.len() {
                assert(r[i] == q[i]);
                if q[i] != k {
                    let x = choose|x: int| 0 <= x < front.len() && front[x] == q[i];
                    assert(o[x] == r[i]);
                }
            } else {
                assert(r[i] == o[o.len() - 1]);
            }
        }
        assert forall|i: int, j: int| 0 <= i < j <= o.len() implies comes_before(
            keys,
            r[i],
            r[j],
        ) by {
            assert(r[i] == q[i]);
            if j < o.len() {
                assert(r[j] == q[j]);
            } else if q[i] != k {
                let x = choose|x: int| 0 <= x < front.len() && front[x] == q[i];
                assert(comes_before(keys, o[x], o[o.len() - 1]));
            }
        }
    }
}

/// Keys can be put in order.
pub proof fn law_some_order(keys: Seq<u32>, n: int) -> (o: Seq<usize>)
    requires
        0 <= n <= keys.len() <= usize::MAX,
    ensures
        in_order(keys, o, 0, n),
    decreases n,
{
    if n == 0 {
        Seq::empty()
    } else {
        let o = law_some_order(keys, n - 1);
        let k = (n - 1) as usize;
        lemma_placed(keys, o, k);
        let r = placed(keys, o, k);
        assert forall|i: int| 0 <= i < r.len() implies 0 <= #[trigger] r[i] < n by {
            if r[i] != k {
                let x = choose|x: int| 0 <= x < o.len() && o[x] == r[i];
                assert(o[x] < n - 1);
            }
        }
        r
    }
}

/// Keys that number themselves stand in order each at its own place.
pub proof fn law_numbered_places(keys: Seq<u32>, o: Seq<usize>, i: int)
    requires
        in_order(keys, o, 0, keys.len() as int),
        forall|k: int| 0 <= k < keys.len() ==> #[trigger] keys[k] < keys.len(),
        forall|j: int, k: int|
            0 <= j < k < keys.len() ==> #[trigger] keys[j] != #[trigger] keys[k],
        0 <= i < keys.len(),
    ensures
        keys[o[i] as int] == i,
{
    lemma_at_least(keys, o, i);
    lemma_at_most(keys, o, i);
}

proof fn lemma_apart(keys: Seq<u32>, o: Seq<usize>, i: int)
    requires
        in_order(keys, o, 0, keys.len() as int),
        forall|j: int, k: int|
            0 <= j < k < keys.len() ==> #[trigger] keys[j] != #[trigger] keys[k],
        0 <= i < keys.len() - 1,
    ensures
        keys[o[i] as int] < keys[o[i + 1] as int],
{
    assert(comes_before(keys, o[i], o[i + 1]));
}

proof fn lemma_at_least(keys: Seq<u32>, o: Seq<usize>, i: int)
    requires
        in_order(keys, o, 0, keys.len() as int),
        forall|j: int, k: int|
            0 <= j < k < keys.len() ==> #[trigger] keys[j] != #[trigger] keys[k],
        0 <= i < keys.len(),
    ensures
        keys[o[i] as int] >= i,
    decreases i,
{
    if i > 0 {
        lemma_at_least(keys, o, i - 1);
        lemma_apart(keys, o, i - 1);
    }
}

proof fn lemma_at_most(keys: Seq<u32>, o: Seq<usize>, i: int)
    requires
        in_order(keys, o, 0, keys.len() as int),
        forall|k: int| 0 <= k < keys.len() ==> #[trigger] keys[k] < keys.len(),
        forall|j: int, k: int|
            0 <= j < k < keys.len() ==> #[trigger] keys[j] != #[trigger] keys[k],
        0 <= i < keys.len(),
    ensures
        keys[o[i] as int] <= i,
    decreases keys.len() - i,
{
    if i + 1 < keys.len() {
        lemma_at_most(keys, o, i + 1);
        lemma_apart(keys, o, i);
    }
}

/// The places `lo..hi` in order of their keys, by merging the two halves.
fn sort_range(keys: &[u32], lo: usize, hi: usize) -> (r: Vec<usize>)
    requires
        lo <= hi <= keys@.len(),
    ensures
        in_order(keys@, r@, lo as int, hi as int),
    decreases hi - lo,
{
    if hi - lo <= 1 {
        let mut one: Vec<usize> = Vec::new();
        if lo < hi {
            one.push(lo);
        }
        return one;
    }
    let mid: usize = lo + (hi - lo) / 2;
    let a = sort_range(keys, lo, mid);
    let b = sort_range(keys, mid, hi);
    let mut out: Vec<usize> = Vec::new();
    let mut i: usize = 0;
    let mut j: usize = 0;
    while i < a.len() || j < b.len()
        invariant
            lo <= mid <= hi <= keys@.len(),
            in_order(keys@, a@, lo as int, mid as int),
            in_order(keys@, b@, mid as int, hi as int),
            i <= a@.len(),
            j <= b@.len(),
            out@.len() == i + j,
            forall|k: int| 0 <= k < out@.len() ==> lo <= #[trigger] out@[k] < hi,
            forall|k: int, l: int|
                0 <= k < l < out@.len() ==> comes_before(keys@, out@[k], out@[l]),
            forall|k: int, l: int|
                0 <= k < out@.len() && i <= l < a@.len() ==> comes_before(
                    keys@,
                    #[trigger] out@[k],
                    #[trigger] a@[l],
                ),
            forall|k: int, l: int|
                0 <= k < out@.len() && j <= l < b@.len() ==> comes_before(
                    keys@,
                    #[trigger] out@[k],
                    #[trigger] b@[l],
                ),
        decreases a.len() - i + b.len() - j,
    {
        let left = if i == a.len() {
            false
        } else if j == b.len() {
            true
        } else {
            keys[a[i]] <= keys[b[j]]
        };
        proof {
            if left {
                assert forall|l: int| j <= l < b@.len() implies comes_before(
                    keys@,
                    a@[i as int],
                    #[trigger] b@[l],
                ) by {
                    assert(lo <= a@[i as int] < mid);
                    assert(mid <= b@[l] && mid <= b@[j as int]);
                    if l > j {
                        assert(comes_before(keys@, b@[j as int], b@[l]));
                    }
                }
                assert forall|l: int| i < l < a@.len() implies comes_before(
                    keys@,
                    a@[i as int],
                    #[trigger] a@[l],
                ) by {}
            } else {
                assert forall|l: int| i <= l < a@.len() implies comes_before(
                    keys@,
                    b@[j as int],
                    #[trigger] a@[l],
                ) by {
                    if l > i {
                        assert(comes_before(keys@, a@[i as int], a@[l]));
                    }
                }
                assert forall|l: int| j < l < b@.len() implies comes_before(
                    keys@,
                    b@[j as int],
                    #[trigger] b@[l],
                ) by {}
            }
        }
        if left {
            out.push(a[i]);
            i = i + 1;
        } else {
            out.push(b[j]);
            j = j + 1;
        }
    }
    out
}

/// There is but one order.
pub proof fn law_one_order(keys: Seq<u32>, a: Seq<usize>, b: Seq<usize>, n: int)
    requires
        in_order(keys, a, 0, n),
        in_order(keys, b, 0, n),
        0 <= n <= usize::MAX,
    ensures
        a == b,
{
    lemma_all_there(keys, a, n);
    lemma_all_there(keys, b, n);
    lemma_same_front(keys, a, b, n, n);
    assert(a =~= b);
}

/// As many different places as there are: each is among them.
proof fn lemma_all_there(keys: Seq<u32>, o: Seq<usize>, n: int)
    requires
        in_order(keys, o, 0, n),
        0 <= n <= usize::MAX,
    ensures
        forall|x: usize| x < n ==> #[trigger] o.contains(x),
{
    let s = o.to_set();
    let t = vstd::set_lib::set_int_range(0, n);
    assert(o.no_duplicates()) by {
        assert forall|i: int, j: int| 0 <= i < o.len() && 0 <= j < o.len() && i != j implies o[i]
            != o[j] by {
            if i < j {
                assert(comes_before(keys, o[i], o[j]));
            } else {
                assert(comes_before(keys, o[j], o[i]));
            }
        }
    }
    o.unique_seq_to_set();
    let m = s.map(|x: usize| x as int);
    vstd::set_lib::lemma_map_size(s, m, |x: usize| x as int);
    vstd::set_lib::lemma_int_range(0, n);
    assert(m.subset_of(t)) by {
        assert forall|x: int| m.contains(x) implies t.contains(x) by {
            let y = choose|y: usize| s.contains(y) && y as int == x;
            assert(o.contains(y));
        }
    }
    vstd::set_lib::lemma_subset_equality(m, t);
    assert forall|x: usize| x < n implies #[trigger] o.contains(x) by {
        assert(t.contains(x as int));
        assert(m.contains(x as int));
        let y = choose|y: usize| s.contains(y) && y as int == x as int;
        assert(o.contains(y));
    }
}

proof fn lemma_same_front(
    keys: Seq<u32>,
    a: Seq<usize>,
    b: Seq<usize>,
    n: int,
    m: int,
)
    requires
        in_order(keys, a, 0, n),
        in_order(keys, b, 0, n),
        0 <= m <= n,
        forall|x: usize| x < n ==> #[trigger] a.contains(x),
        forall|x: usize| x < n ==> #[trigger] b.contains(x),
    ensures
        forall|i: int| 0 <= i < m ==> #[trigger] a[i] == b[i],
    decreases m,
{
    if m > 0 {
        lemma_same_front(keys, a, b, n, m - 1);
        let k = m - 1;
        assert(a.contains(b[k]) && b.contains(a[k]));
        let i = choose|i: int| 0 <= i < a.len() && a[i] == b[k];
        let j = choose|j: int| 0 <= j < b.len() && b[j] == a[k];
        if i < k {
            assert(b[i] == b[k]);
            assert(comes_before(keys, b[i], b[k]));
        }
        if j < k {
            assert(a[j] == a[k]);
            assert(comes_before(keys, a[j], a[k]));
        }
        if i > k {
            assert(comes_before(keys, a[k], a[i]));
        }
        if j > k {
            assert(comes_before(keys, b[k], b[j]));
        }
    }
}

} // verus!
