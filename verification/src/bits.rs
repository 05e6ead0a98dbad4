//! Single bits of 64-bit words, and fills along runs of set bits.
use vstd::prelude::*;
use vstd::std_specs::bits::axiom_u64_trailing_zeros;

verus! {

/// The bit `i` of a word.
pub open spec fn bit(x: u64, i: int) -> bool {
    (x >> (i as u64)) & 1 == 1
}

proof fn lemma_bitwise(x: u64, y: u64, i: u64)
    by (bit_vector)
    requires
        i < 64,
    ensures
        ((x & y) >> i) & 1 == 1 <==> (x >> i) & 1 == 1 && (y >> i) & 1 == 1,
        ((x | y) >> i) & 1 == 1 <==> (x >> i) & 1 == 1 || (y >> i) & 1 == 1,
        ((x ^ y) >> i) & 1 == 1 <==> ((x >> i) & 1 == 1) != ((y >> i) & 1 == 1),
        ((!x) >> i) & 1 == 1 <==> (x >> i) & 1 != 1,
        (0u64 >> i) & 1 == 0,
        (0xffff_ffff_ffff_ffffu64 >> i) & 1 == 1,
{
}

proof fn lemma_shifted(x: u64, k: u64, i: u64)
    by (bit_vector)
    requires
        i < 64,
        k < 64,
    ensures
        i >= k ==> ((x << k) >> i) & 1 == (x >> ((i - k) as u64)) & 1,
        i < k ==> ((x << k) >> i) & 1 == 0,
        i + k < 64 ==> ((x >> k) >> i) & 1 == (x >> ((i + k) as u64)) & 1,
        i + k >= 64 ==> ((x >> k) >> i) & 1 == 0,
{
}

/// What the word operations do to each bit.
pub broadcast proof fn lemma_and(x: u64, y: u64, i: int)
    requires
        0 <= i < 64,
    ensures
        #[trigger] bit(x & y, i) == (bit(x, i) && bit(y, i)),
{
    lemma_bitwise(x, y, i as u64);
}

pub broadcast proof fn lemma_or(x: u64, y: u64, i: int)
    requires
        0 <= i < 64,
    ensures
        #[trigger] bit(x | y, i) == (bit(x, i) || bit(y, i)),
{
    lemma_bitwise(x, y, i as u64);
}

pub broadcast proof fn lemma_xor(x: u64, y: u64, i: int)
    requires
        0 <= i < 64,
    ensures
        #[trigger] bit(x ^ y, i) == (bit(x, i) != bit(y, i)),
{
    lemma_bitwise(x, y, i as u64);
}

pub broadcast proof fn lemma_not(x: u64, i: int)
    requires
        0 <= i < 64,
    ensures
        #[trigger] bit(!x, i) == !bit(x, i),
{
    lemma_bitwise(x, 0, i as u64);
}

pub broadcast proof fn lemma_shl(x: u64, k: u64, i: int)
    requires
        0 <= i < 64,
        k < 64,
    ensures
        #[trigger] bit(x << k, i) == (i >= k && bit(x, i - k)),
{
    lemma_shifted(x, k, i as u64);
}

pub broadcast proof fn lemma_shr(x: u64, k: u64, i: int)
    requires
        0 <= i < 64,
        k < 64,
    ensures
        #[trigger] bit(x >> k, i) == (i + k < 64 && bit(x, i + k)),
{
    lemma_shifted(x, k, i as u64);
}

/// No bit of zero is set, every bit of the largest word is.
pub proof fn lemma_constants(i: int)
    requires
        0 <= i < 64,
    ensures
        !bit(0, i),
        bit(u64::MAX, i),
{
    lemma_bitwise(0, 0, i as u64);
}

proof fn lemma_single(k: u64, i: u64)
    by (bit_vector)
    requires
        i < 64,
        k < 64,
    ensures
        ((1u64 << k) >> i) & 1 == 1 <==> i == k,
        (((1u64 << k) - 1) as u64 >> i) & 1 == 1 <==> i < k,
        ((0xffff_ffff_ffff_ffffu64 << k) >> i) & 1 == 1 <==> i >= k,
{
}

/// The words with one bit, with the bits below it, and with the bits from it on.
pub proof fn lemma_ranges(k: u64, i: int)
    requires
        0 <= i < 64,
        k < 64,
    ensures
        bit(1u64 << k, i) == (i == k),
        bit(((1u64 << k) - 1) as u64, i) == (i < k),
        bit(u64::MAX << k, i) == (i >= k),
        0 < 1u64 << k,
{
    lemma_single(k, i as u64);
    assert(0 < 1u64 << k) by (bit_vector)
        requires
            k < 64,
    ;
}

proof fn lemma_low(x: u64, t: u64, i: u64)
    by (bit_vector)
    requires
        t < 64,
        i < 64,
        x << ((64 - t) as u64) == 0 || t == 0,
        (x >> t) & 1 == 1,
    ensures
        x > 0,
        ((x & ((x - 1) as u64)) >> i) & 1 == 1 <==> (x >> i) & 1 == 1 && i != t,
{
}

/// The lowest set bit, and the word without it.
pub proof fn lemma_lowest(x: u64)
    requires
        x != 0,
    ensures
        x.trailing_zeros() < 64,
        bit(x, x.trailing_zeros() as int),
        forall|i: int| 0 <= i < x.trailing_zeros() ==> !bit(x, i),
        forall|i: int|
            0 <= i < 64 ==> #[trigger] bit(x & ((x - 1) as u64), i) == (bit(x, i) && i
                != x.trailing_zeros()),
{
    axiom_u64_trailing_zeros(x);
    let t = x.trailing_zeros() as u64;
    assert forall|i: int| 0 <= i < x.trailing_zeros() implies !bit(x, i) by {
        assert((x >> (i as u64)) & 1u64 == 0u64);
    }
    assert forall|i: int| 0 <= i < 64 implies #[trigger] bit(x & ((x - 1) as u64), i) == (bit(
        x,
        i,
    ) && i != x.trailing_zeros()) by {
        lemma_low(x, t, i as u64);
    }
}

/// A word is zero where none of its bits is set.
pub proof fn lemma_zero(x: u64)
    ensures
        (forall|i: int| 0 <= i < 64 ==> !bit(x, i)) <==> x == 0,
{
    if x == 0 {
        assert forall|i: int| 0 <= i < 64 implies !bit(x, i) by {
            lemma_constants(i);
        }
    } else {
        lemma_lowest(x);
        assert(bit(x, x.trailing_zeros() as int));
    }
}

pub broadcast group group_bits {
    lemma_and,
    lemma_or,
    lemma_xor,
    lemma_not,
    lemma_shl,
    lemma_shr,
}

proof fn lemma_first_bit(x: u64)
    by (bit_vector)
    ensures
        (x >> 0) & 1 == 1 <==> x & 1 != 0,
{
}

/// The first bit of a word.
pub proof fn lemma_first(x: u64)
    ensures
        bit(x, 0) == (x & 1 != 0),
{
    lemma_first_bit(x);
}

// ---- fills ----

/// Every bit in `i..=j` is set.
pub open spec fn all_set(m: u64, i: int, j: int) -> bool {
    forall|k: int| i <= k <= j ==> #[trigger] bit(m, k)
}

/// A seed at most `d` bits below `j` leads to `j` along the mask.
spec fn led_up(seed: u64, mask: u64, j: int, d: int) -> bool {
    exists|i: int| 0 <= i <= j && j - i < d && #[trigger] bit(seed, i) && all_set(mask, i, j)
}

/// A seed at most `d` bits above `j` leads to `j` along the mask.
spec fn led_down(seed: u64, mask: u64, j: int, d: int) -> bool {
    exists|i: int| j <= i < 64 && i - j < d && #[trigger] bit(seed, i) && all_set(mask, j, i)
}

/// `j` lies in a run of the mask, and a seed below it or at it lies in the same run.
pub open spec fn filled_right(seed: u64, mask: u64, j: int) -> bool {
    exists|i: int| 0 <= i <= j && #[trigger] bit(seed, i) && all_set(mask, i, j)
}

/// `j` lies in a run of the mask, and a seed above it or at it lies in the same run.
pub open spec fn filled_left(seed: u64, mask: u64, j: int) -> bool {
    exists|i: int| j <= i < 64 && #[trigger] bit(seed, i) && all_set(mask, j, i)
}

/// `c` has the bits that end a stretch of `d` set bits of the mask.
spec fn stretch_up(c: u64, mask: u64, d: int) -> bool {
    forall|j: int| 0 <= j < 64 ==> #[trigger] bit(c, j) == (j + 1 >= d && all_set(
        mask,
        j - d + 1,
        j,
    ))
}

spec fn stretch_down(c: u64, mask: u64, d: int) -> bool {
    forall|j: int| 0 <= j < 64 ==> #[trigger] bit(c, j) == (j + d <= 64 && all_set(
        mask,
        j,
        j + d - 1,
    ))
}

/// One doubling of a fill toward higher bits.
proof fn lemma_double_up(seed: u64, mask: u64, x: u64, c: u64, d: u64)
    requires
        1 <= d <= 32,
        forall|j: int| 0 <= j < 64 ==> #[trigger] bit(x, j) == led_up(seed, mask, j, d as int),
        stretch_up(c, mask, d as int),
    ensures
        forall|j: int|
            0 <= j < 64 ==> #[trigger] bit(x | ((x << d) & c), j) == led_up(
                seed,
                mask,
                j,
                2 * d,
            ),
        stretch_up(c & (c << d), mask, 2 * d),
{
    broadcast use group_bits;

    assert forall|j: int| 0 <= j < 64 implies #[trigger] bit(x | ((x << d) & c), j) == led_up(
        seed,
        mask,
        j,
        2 * d,
    ) by {
        if bit(x, j) {
            let i = choose|i: int|
                0 <= i <= j && j - i < d && #[trigger] bit(seed, i) && all_set(mask, i, j);
            assert(bit(seed, i));
        }
        if j >= d && bit(x, j - d) && bit(c, j) {
            let i = choose|i: int|
                0 <= i <= j - d && (j - d) - i < d && #[trigger] bit(seed, i) && all_set(
                    mask,
                    i,
                    j - d,
                );
            assert forall|k: int| i <= k <= j implies #[trigger] bit(mask, k) by {
                if k > j - d {
                    assert(all_set(mask, j - d + 1, j));
                }
            }
            assert(bit(seed, i) && all_set(mask, i, j));
        }
        if led_up(seed, mask, j, 2 * d) {
            let i = choose|i: int|
                0 <= i <= j && j - i < 2 * d && #[trigger] bit(seed, i) && all_set(mask, i, j);
            if j - i < d {
                assert(led_up(seed, mask, j, d as int));
            } else {
                assert(all_set(mask, i, j - d));
                assert(led_up(seed, mask, j - d, d as int));
                assert(bit(x, j - d));
                assert(all_set(mask, j - d + 1, j));
                assert(bit(c, j));
            }
        }
    }
    let c2 = c & (c << d);
    assert forall|j: int| 0 <= j < 64 implies #[trigger] bit(c2, j) == (j + 1 >= 2 * d && all_set(
        mask,
        j - 2 * d + 1,
        j,
    )) by {
        if bit(c2, j) {
            assert(bit(c, j) && bit(c, j - d));
            assert(all_set(mask, j - d + 1, j));
            assert(all_set(mask, (j - d) - d + 1, j - d));
            assert forall|k: int| j - 2 * d + 1 <= k <= j implies #[trigger] bit(mask, k) by {}
        }
        if j + 1 >= 2 * d && all_set(mask, j - 2 * d + 1, j) {
            assert(all_set(mask, j - d + 1, j));
            assert(all_set(mask, (j - d) - d + 1, j - d));
            assert(bit(c, j));
            assert(bit(c, j - d));
        }
    }
}

proof fn lemma_double_down(seed: u64, mask: u64, x: u64, c: u64, d: u64)
    requires
        1 <= d <= 32,
        forall|j: int| 0 <= j < 64 ==> #[trigger] bit(x, j) == led_down(seed, mask, j, d as int),
        stretch_down(c, mask, d as int),
    ensures
        forall|j: int|
            0 <= j < 64 ==> #[trigger] bit(x | ((x >> d) & c), j) == led_down(
                seed,
                mask,
                j,
                2 * d,
            ),
        stretch_down(c & (c >> d), mask, 2 * d),
{
    broadcast use group_bits;

    assert forall|j: int| 0 <= j < 64 implies #[trigger] bit(x | ((x >> d) & c), j) == led_down(
        seed,
        mask,
        j,
        2 * d,
    ) by {
        if bit(x, j) {
            let i = choose|i: int|
                j <= i < 64 && i - j < d && #[trigger] bit(seed, i) && all_set(mask, j, i);
            assert(bit(seed, i));
        }
        if j + d < 64 && bit(x, j + d) && bit(c, j) {
            let i = choose|i: int|
                j + d <= i < 64 && i - (j + d) < d && #[trigger] bit(seed, i) && all_set(
                    mask,
                    j + d,
                    i,
                );
            assert forall|k: int| j <= k <= i implies #[trigger] bit(mask, k) by {
                if k < j + d {
                    assert(all_set(mask, j, j + d - 1));
                }
            }
            assert(bit(seed, i) && all_set(mask, j, i));
        }
        if led_down(seed, mask, j, 2 * d) {
            let i = choose|i: int|
                j <= i < 64 && i - j < 2 * d && #[trigger] bit(seed, i) && all_set(mask, j, i);
            if i - j < d {
                assert(led_down(seed, mask, j, d as int));
            } else {
                assert(all_set(mask, j + d, i));
                assert(led_down(seed, mask, j + d, d as int));
                assert(bit(x, j + d));
                assert(all_set(mask, j, j + d - 1));
                assert(bit(c, j));
            }
        }
    }
    let c2 = c & (c >> d);
    assert forall|j: int| 0 <= j < 64 implies #[trigger] bit(c2, j) == (j + 2 * d <= 64
        && all_set(mask, j, j + 2 * d - 1)) by {
        if bit(c2, j) {
            assert(bit(c, j) && bit(c, j + d));
            assert(all_set(mask, j, j + d - 1));
            assert(all_set(mask, j + d, (j + d) + d - 1));
            assert forall|k: int| j <= k <= j + 2 * d - 1 implies #[trigger] bit(mask, k) by {}
        }
        if j + 2 * d <= 64 && all_set(mask, j, j + 2 * d - 1) {
            assert(all_set(mask, j, j + d - 1));
            assert(all_set(mask, j + d, (j + d) + d - 1));
            assert(bit(c, j));
            assert(bit(c, j + d));
        }
    }
}

proof fn lemma_single_steps(seed: u64, mask: u64)
    ensures
        forall|j: int| 0 <= j < 64 ==> #[trigger] bit(seed & mask, j) == led_up(seed, mask, j, 1),
        forall|j: int| 0 <= j < 64 ==> #[trigger] bit(seed & mask, j) == led_down(seed, mask, j, 1),
        stretch_up(mask, mask, 1),
        stretch_down(mask, mask, 1),
{
    broadcast use group_bits;

    assert forall|j: int| 0 <= j < 64 implies #[trigger] bit(seed & mask, j) == led_up(
        seed,
        mask,
        j,
        1,
    ) && bit(seed & mask, j) == led_down(seed, mask, j, 1) by {
        if bit(seed & mask, j) {
            assert(bit(seed, j) && all_set(mask, j, j));
        }
    }
    assert forall|j: int| 0 <= j < 64 implies #[trigger] bit(mask, j) == (j + 1 >= 1 && all_set(
        mask,
        j - 1 + 1,
        j,
    )) by {
        if all_set(mask, j, j) {
            assert(bit(mask, j));
        }
    }
    assert forall|j: int| 0 <= j < 64 implies #[trigger] bit(mask, j) == (j + 1 <= 64 && all_set(
        mask,
        j,
        j + 1 - 1,
    )) by {
        if all_set(mask, j, j) {
            assert(bit(mask, j));
        }
    }
}

/// Kogge-Stone rightward fill: propagate `seed` bits toward higher bit
/// positions through contiguous runs of `mask`.
pub fn fill_right(seed: u64, mask: u64) -> (r: u64)
    ensures
        forall|j: int| 0 <= j < 64 ==> #[trigger] bit(r, j) == filled_right(seed, mask, j),
{
    let mut x: u64 = seed & mask;
    let mut c: u64 = mask;
    let mut d: u64 = 1;
    proof {
        lemma_single_steps(seed, mask);
    }
    while d < 64
        invariant
            d == 1 || d == 2 || d == 4 || d == 8 || d == 16 || d == 32 || d == 64,
            forall|j: int| 0 <= j < 64 ==> #[trigger] bit(x, j) == led_up(seed, mask, j, d as int),
            stretch_up(c, mask, d as int),
        decreases 64 - d,
    {
        proof {
            lemma_double_up(seed, mask, x, c, d);
        }
        x = x | ((x << d) & c);
        c = c & (c << d);
        d = d * 2;
    }
    assert forall|j: int| 0 <= j < 64 implies #[trigger] bit(x, j) == filled_right(
        seed,
        mask,
        j,
    ) by {
        if filled_right(seed, mask, j) {
            let i = choose|i: int| 0 <= i <= j && #[trigger] bit(seed, i) && all_set(mask, i, j);
            assert(bit(seed, i));
            assert(led_up(seed, mask, j, 64));
        }
    }
    x
}

/// Leftward counterpart of [`fill_right`].
pub fn fill_left(seed: u64, mask: u64) -> (r: u64)
    ensures
        forall|j: int| 0 <= j < 64 ==> #[trigger] bit(r, j) == filled_left(seed, mask, j),
{
    let mut x: u64 = seed & mask;
    let mut c: u64 = mask;
    let mut d: u64 = 1;
    proof {
        lemma_single_steps(seed, mask);
    }
    while d < 64
        invariant
            d == 1 || d == 2 || d == 4 || d == 8 || d == 16 || d == 32 || d == 64,
            forall|j: int|
                0 <= j < 64 ==> #[trigger] bit(x, j) == led_down(seed, mask, j, d as int),
            stretch_down(c, mask, d as int),
        decreases 64 - d,
    {
        proof {
            lemma_double_down(seed, mask, x, c, d);
        }
        x = x | ((x >> d) & c);
        c = c & (c >> d);
        d = d * 2;
    }
    assert forall|j: int| 0 <= j < 64 implies #[trigger] bit(x, j) == filled_left(
        seed,
        mask,
        j,
    ) by {
        if filled_left(seed, mask, j) {
            let i = choose|i: int| j <= i < 64 && #[trigger] bit(seed, i) && all_set(mask, j, i);
            assert(bit(seed, i));
            assert(led_down(seed, mask, j, 64));
        }
    }
    x
}

/// Fill whole `mask` runs containing a `seed` bit, in both directions.
pub fn fill_both(seed: u64, mask: u64) -> (r: u64)
    ensures
        forall|j: int|
            0 <= j < 64 ==> #[trigger] bit(r, j) == (filled_right(seed, mask, j) || filled_left(
                seed,
                mask,
                j,
            )),
{
    broadcast use group_bits;

    fill_right(seed, mask) | fill_left(seed, mask)
}

// ---- runs of digits ----

/// The start of the run of set bits that holds `j`.
pub open spec fn run_start(d: u64, j: int) -> int
    decreases j,
{
    if j <= 0 || !bit(d, j - 1) {
        j
    } else {
        run_start(d, j - 1)
    }
}

/// The bit `j` starts a piece of a run that is cut into pieces of three.
pub open spec fn splits3(d: u64, j: int) -> bool {
    bit(d, j) && (j - run_start(d, j)) % 3 == 0
}

/// Before the start of a run stands no set bit.
pub proof fn lemma_run_start_stops(d: u64, j: int)
    ensures
        run_start(d, j) > 0 ==> !bit(d, run_start(d, j) - 1),
    decreases j,
{
    if j > 0 && bit(d, j - 1) {
        lemma_run_start_stops(d, j - 1);
    }
}

proof fn lemma_run_start(d: u64, i: int, j: int)
    requires
        0 <= i <= j,
        all_set(d, i, j),
    ensures
        run_start(d, j) == run_start(d, i),
        0 <= run_start(d, i) <= i,
        all_set(d, run_start(d, i), i),
    decreases j + i,
{
    if i < j {
        assert(bit(d, j - 1));
        lemma_run_start(d, i, j - 1);
    } else if i > 0 && bit(d, i - 1) {
        assert(all_set(d, i - 1, i - 1)) by {
            assert(bit(d, i - 1));
        }
        lemma_run_start(d, i - 1, i - 1);
        assert forall|k: int| run_start(d, i) <= k <= i implies #[trigger] bit(d, k) by {
            if k == i {
            } else {
                assert(bit(d, k));
            }
        }
    }
}

/// `j` is at most `n - 1` hops of three behind the start of its run.
spec fn near3(d: u64, j: int, n: int) -> bool {
    splits3(d, j) && j - run_start(d, j) < 3 * n
}

/// Piece-start bits inside ASCII digit runs for `\p{N}{1,3}`: each run
/// splits into 3-char pieces, so starts sit at run start + 3k.
pub fn digit_run_splits3(d: u64) -> (r: u64)
    ensures
        forall|j: int| 0 <= j < 64 ==> #[trigger] bit(r, j) == splits3(d, j),
{
    broadcast use group_bits;

    let mut b: u64 = d & !(d << 1);
    let mut c: u64 = d & (d >> 1) & (d >> 2) & (d >> 3);
    let mut sh: u64 = 3;
    let ghost mut n: int = 1;
    assert forall|j: int| 0 <= j < 64 implies #[trigger] bit(b, j) == near3(d, j, 1) by {
        if bit(d, j) {
            assert(all_set(d, j, j));
            lemma_run_start(d, j, j);
            if near3(d, j, 1) {
                assert(run_start(d, j) == j);
                if j > 0 && bit(d, j - 1) {
                    assert(all_set(d, j - 1, j)) by {
                        assert(bit(d, j - 1) && bit(d, j));
                    }
                    lemma_run_start(d, j - 1, j);
                }
            }
        }
    }
    assert forall|j: int| 0 <= j < 64 implies #[trigger] bit(c, j) == (j + 3 < 64 && all_set(
        d,
        j,
        j + 3,
    )) by {
        if bit(c, j) {
            assert(bit(d >> 3, j));
            assert(bit(d, j) && bit(d, j + 1) && bit(d, j + 2) && bit(d, j + 3));
        }
        if j + 3 < 64 && all_set(d, j, j + 3) {
            assert(bit(d, j) && bit(d, j + 1) && bit(d, j + 2) && bit(d, j + 3));
        }
    }
    while sh < 64
        invariant
            sh == 3 || sh == 6 || sh == 12 || sh == 24 || sh == 48 || sh == 96,
            sh == 3 * n,
            forall|j: int| 0 <= j < 64 ==> #[trigger] bit(b, j) == near3(d, j, n),
            forall|j: int|
                0 <= j < 64 ==> #[trigger] bit(c, j) == (j + sh < 64 && all_set(d, j, j + sh)),
        decreases 96 - sh,
    {
        broadcast use group_bits;

        let b2: u64 = b | ((b & c) << sh);
        let c2: u64 = c & (c >> sh);
        proof {
            assert forall|j: int| 0 <= j < 64 implies #[trigger] bit(b2, j) == near3(
                d,
                j,
                2 * n,
            ) by {
                if j >= sh && bit(b, j - sh) && bit(c, j - sh) {
                    assert(all_set(d, j - sh, j));
                    lemma_run_start(d, j - sh, j);
                    assert(bit(d, j));
                }
                if near3(d, j, 2 * n) && !near3(d, j, n) {
                    assert(all_set(d, j, j));
                    lemma_run_start(d, j, j);
                    let s = run_start(d, j);
                    assert(j - sh >= s);
                    assert(all_set(d, j - sh, j));
                    lemma_run_start(d, j - sh, j);
                    assert(bit(d, j - sh));
                    assert(near3(d, j - sh, n));
                    assert(bit(b, j - sh));
                    assert(bit(c, j - sh));
                }
            }
            assert forall|j: int| 0 <= j < 64 implies #[trigger] bit(c2, j) == (j + 2 * sh < 64
                && all_set(d, j, j + 2 * sh)) by {
                if bit(c2, j) {
                    assert(bit(c, j) && bit(c, j + sh));
                    assert forall|k: int| j <= k <= j + 2 * sh implies #[trigger] bit(d, k) by {
                        if k <= j + sh {
                            assert(all_set(d, j, j + sh));
                        } else {
                            assert(all_set(d, j + sh, j + sh + sh));
                        }
                    }
                }
                if j + 2 * sh < 64 && all_set(d, j, j + 2 * sh) {
                    assert(all_set(d, j, j + sh));
                    assert(all_set(d, j + sh, j + sh + sh));
                    assert(bit(c, j));
                    assert(bit(c, j + sh));
                }
            }
            n = 2 * n;
        }
        b = b2;
        c = c2;
        sh = sh * 2;
    }
    assert forall|j: int| 0 <= j < 64 implies #[trigger] bit(b, j) == splits3(d, j) by {
        if splits3(d, j) {
            assert(all_set(d, j, j));
            lemma_run_start(d, j, j);
        }
    }
    b
}

/// Mask of the contiguous digit run starting at bit 0.
pub fn leading_run(d: u64) -> (r: u64)
    ensures
        forall|j: int| 0 <= j < 64 ==> #[trigger] bit(r, j) == all_set(d, 0, j),
{
    broadcast use group_bits;

    let tz: u32 = (!d).trailing_zeros();
    proof {
        axiom_u64_trailing_zeros(!d);
        assert forall|j: int| 0 <= j < tz implies #[trigger] bit(d, j) by {
            assert(((!d) >> (j as u64)) & 1u64 == 0u64);
            assert(!bit(!d, j));
        }
    }
    if tz >= 64 {
        assert forall|j: int| 0 <= j < 64 implies #[trigger] bit(u64::MAX, j) == all_set(
            d,
            0,
            j,
        ) by {
            lemma_constants(j);
        }
        u64::MAX
    } else {
        proof {
            lemma_lowest(!d);
            lemma_ranges(tz as u64, 0);
            assert forall|j: int| 0 <= j < 64 implies #[trigger] bit(
                ((1u64 << (tz as u64)) - 1) as u64,
                j,
            ) == all_set(d, 0, j) by {
                lemma_ranges(tz as u64, j);
                if all_set(d, 0, j) && j >= tz {
                    assert(bit(d, tz as int));
                    assert(bit(!d, tz as int));
                }
            }
        }
        (1u64 << (tz as u64)) - 1
    }
}

} // verus!
