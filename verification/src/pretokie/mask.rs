//! Mask-scanner pretokenizers: 64-byte batches are classified into per-byte
//! class bitmasks, piece-start bits are derived with shifted-mask algebra, and
//! iteration pops one bit per piece.
//!
//! [`Mask`] gives the same pieces as [`Core`], which remains the scalar ground
//! truth: regions the batch algebra cannot decide locally (characters of no
//! clear class, mixed newline/space whitespace runs, batch-edge ambiguities)
//! become "bad zones" whose pieces are derived by running `Core` from the
//! pending piece start. The walker never emits a piece across an unresolved bad
//! zone.
use super::batch;
use super::batch::batch_masks;
use super::config::PretokConfig;
use super::rules;
use super::scalar::Core;
use super::util;
use crate::bits;
use crate::text::substr;
use std::marker::PhantomData;
use vstd::prelude::*;
use vstd::string::*;

verus! {

/// A longest text that positions a batch ahead of it can still be counted for.
pub open spec fn scannable(b: Seq<u8>) -> bool {
    b.len() + 256 <= usize::MAX
}

/// End of the piece starting at `pos` per the scalar ground truth; `pos` itself
/// at the end of the text.
pub fn scalar_advance<C: PretokConfig>(text: &str, pos: usize) -> (end: usize)
    requires
        util::boundary(text.spec_bytes(), pos as int),
    ensures
        pos == text.spec_bytes().len() ==> end == pos,
        pos < text.spec_bytes().len() ==> end == rules::piece_end::<C>(
            text.spec_bytes(),
            pos as int,
        ) && pos < end <= text.spec_bytes().len(),
        util::boundary(text.spec_bytes(), end as int),
{
    proof {
        if pos < text.spec_bytes().len() {
            rules::law_piece_end::<C>(text.spec_bytes(), pos as int);
        }
    }
    let mut core = Core::<C>::with_pos(text, pos);
    let n: usize = text.as_bytes().len();
    match core.next() {
        Some(p) => {
            let k: usize = p.as_bytes().len();
            assert(p.spec_bytes().len() == k);
            pos + k
        },
        None => pos,
    }
}

/// From `p` up to `hi` nothing of the batch at `base` is bad, and nothing
/// behind `p` is marked.
spec fn plain_stretch(usable: u64, bad: u64, base: int, p: int, hi: int) -> bool {
    &&& forall|q: int| p <= q < hi && base <= q ==> !#[trigger] batch::marked(bad, base, q)
    &&& forall|q: int| p < q < hi && base <= q ==> !#[trigger] batch::marked(usable, base, q)
}

/// Where nothing is marked and nothing is bad, the piece goes on.
proof fn lemma_goes_on<C: PretokConfig>(
    b: Seq<u8>,
    base: int,
    usable: u64,
    bad: u64,
    p: int,
    hi: int,
)
    requires
        batch::masks_sound::<C>(b, base, usable, bad),
        batch::reached::<C>(b, p),
        0 <= p < b.len(),
        util::boundary(b, p),
        p < base ==> batch::settled::<C>(b, p, base) && rules::piece_end::<C>(b, p) >= base,
        p < hi,
        base <= hi <= base + 64,
        plain_stretch(usable, bad, base, p, hi),
    ensures
        rules::piece_end::<C>(b, p) >= hi,
        hi < base + 64 && !batch::marked(bad, base, hi) ==> batch::marked(usable, base, hi) == (
        rules::piece_end::<C>(b, p) == hi),
    decreases hi,
{
    rules::law_piece_end::<C>(b, p);
    if hi > p + 1 && hi > base {
        assert(plain_stretch(usable, bad, base, p, hi - 1));
        lemma_goes_on::<C>(b, base, usable, bad, p, hi - 1);
        assert(!batch::marked(bad, base, hi - 1));
    }
    if hi < base + 64 && !batch::marked(bad, base, hi) {
        assert(batch::decided::<C>(b, base, bad, p, hi)) by {
            assert forall|j: int| p <= j <= hi && base <= j implies !#[trigger] batch::marked(
                bad,
                base,
                j,
            ) by {}
        }
    }
}

/// Scheme-agnostic mask-scanner state: pops trusted boundary bits, walks
/// bad zones through `Core`, runs the buffer tail scalar, and computes one
/// batch ahead.
struct MaskState {
    /// Start of the pending (not yet emitted) piece.
    pos: usize,
    /// Base of the next batch to scan.
    scan: usize,
    /// Base the `rem`/`batch_*` bits refer to.
    mask_base: usize,
    /// Boundary bits of the current segment (trusted, pop-ready).
    rem: u64,
    /// Full usable mask of the current batch (later segments).
    batch_usable: u64,
    /// Bad zones of the current batch not yet passed.
    batch_bad: u64,
    /// Emit pieces via `Core` while `pos < scalar_until`.
    scalar_until: usize,
    /// Eagerly computed masks for the batch at `pre_base` (`usize::MAX` =
    /// none).
    pre_base: usize,
    pre_usable: u64,
    pre_bad: u64,
    /// The bad zones of the current batch, passed or not.
    all_bad: Ghost<u64>,
    /// Where the current segment ends, as a bit.
    seg_end: Ghost<int>,
}

impl MaskState {
    /// What the current segment says of the pending piece.
    spec fn segment_ok<C: PretokConfig>(&self, b: Seq<u8>) -> bool {
        let base = self.mask_base as int;
        &&& 0 <= self.seg_end@ <= 64
        &&& forall|j: int|
            0 <= j < 64 ==> #[trigger] bits::bit(self.rem, j) == (base + j > self.pos && j
                < self.seg_end@ && bits::bit(self.batch_usable, j))
        &&& forall|j: int|
            0 <= j < self.seg_end@ && base + j >= self.pos ==> !#[trigger] bits::bit(
                self.all_bad@,
                j,
            )
        &&& self.pos < base ==> batch::settled::<C>(b, self.pos as int, base) && rules::piece_end::<
            C,
        >(b, self.pos as int) >= base
    }

    /// The state fits the text.
    spec fn wf<C: PretokConfig>(&self, b: Seq<u8>) -> bool {
        &&& scannable(b)
        &&& self.pos <= b.len()
        &&& util::boundary(b, self.pos as int)
        &&& batch::reached::<C>(b, self.pos as int)
        &&& self.scan <= b.len() + 128
        &&& self.mask_base <= self.scan
        &&& self.segment_ok::<C>(b)
        &&& self.scan == self.mask_base ==> self.seg_end@ == 0 && self.batch_bad == 0 && self.rem
            == 0 && self.pos >= self.scan
        &&& self.scan > self.mask_base ==> {
            &&& self.mask_base + 64 <= b.len()
            &&& self.mask_base + 64 <= self.scan
            &&& batch::masks_sound::<C>(b, self.mask_base as int, self.batch_usable, self.all_bad@)
        }
        &&& self.pos >= self.scan || (self.scan == self.mask_base + 64 && (self.batch_bad != 0
            || self.seg_end@ == 64))
        &&& self.batch_bad != 0 ==> self.batch_bad == self.all_bad@ && (self.pos >= self.mask_base
            || self.pos < self.scalar_until || self.rem != 0) && self.mask_base
            <= self.scalar_until
        &&& self.pre_base != usize::MAX ==> self.pre_base + 64 <= b.len() && batch::masks_sound::<
            C,
        >(b, self.pre_base as int, self.pre_usable, self.pre_bad)
    }

    fn new<C: PretokConfig>(text: &str) -> (r: Self)
        ensures
            scannable(text.spec_bytes()) ==> r.wf::<C>(text.spec_bytes()),
            r.pos == 0,
    {
        proof {
            vstd::utf8::encode_utf8_valid_utf8(text@);
            util::lemma_boundary_ends(text.spec_bytes());
            bits::lemma_zero(0);
        }
        MaskState {
            pos: 0,
            scan: 0,
            mask_base: 0,
            rem: 0,
            batch_usable: 0,
            batch_bad: 0,
            scalar_until: 0,
            pre_base: usize::MAX,
            pre_usable: 0,
            pre_bad: 0,
            all_bad: Ghost(0),
            seg_end: Ghost(0),
        }
    }

    /// Load the segment of `batch_usable` bits in `[from_bit, next bad run)`
    /// into `rem` and aim `scalar_until` past that bad run at the next
    /// trusted boundary (or the batch end).
    fn load_segment<C: PretokConfig>(&mut self, from_bit: u64, Ghost(b): Ghost<Seq<u8>>)
        requires
            scannable(b),
            from_bit < 64,
            old(self).rem == 0,
            old(self).mask_base + 64 <= b.len(),
            old(self).pos <= b.len(),
            old(self).pos < old(self).mask_base + 64,
            util::boundary(b, old(self).pos as int),
            batch::reached::<C>(b, old(self).pos as int),
            old(self).mask_base + 64 <= old(self).scan <= b.len() + 128,
            old(self).pos >= old(self).scan || old(self).scan == old(self).mask_base + 64,
            old(self).pos < old(self).mask_base ==> from_bit == 0,
            old(self).pos >= old(self).mask_base ==> old(self).pos == old(self).mask_base
                + from_bit,
            old(self).pos < old(self).mask_base ==> batch::settled::<C>(
                b,
                old(self).pos as int,
                old(self).mask_base as int,
            ) && rules::piece_end::<C>(b, old(self).pos as int) >= old(self).mask_base,
            batch::masks_sound::<C>(
                b,
                old(self).mask_base as int,
                old(self).batch_usable,
                old(self).all_bad@,
            ),
            old(self).batch_bad == old(self).all_bad@,
            old(self).pos >= old(self).scalar_until,
            old(self).pre_base != usize::MAX ==> old(self).pre_base + 64 <= b.len()
                && batch::masks_sound::<C>(
                b,
                old(self).pre_base as int,
                old(self).pre_usable,
                old(self).pre_bad,
            ),
        ensures
            final(self).wf::<C>(b),
            final(self).pos == old(self).pos,
            final(self).scan == old(self).scan,
            final(self).mask_base == old(self).mask_base,
            final(self).pre_base == old(self).pre_base,
            final(self).batch_bad == 0 || final(self).pos < final(self).scalar_until,
            final(self).batch_bad == 0 || final(self).batch_bad == old(self).batch_bad,
    {
        broadcast use bits::group_bits;

        let live: u64 = u64::MAX << from_bit;
        let seg_bad: u64 = self.batch_bad & live;
        let at_start = self.pos >= self.mask_base;
        let own: u64 = if at_start {
            1u64 << from_bit
        } else {
            0
        };
        proof {
            assert forall|j: int| 0 <= j < 64 implies #[trigger] bits::bit(own, j) == (at_start && j
                == from_bit) by {
                bits::lemma_ranges(from_bit, j);
                bits::lemma_constants(j);
            }
            assert forall|j: int| 0 <= j < 64 implies #[trigger] bits::bit(live, j) == (j
                >= from_bit) by {
                bits::lemma_ranges(from_bit, j);
            }
        }
        if seg_bad == 0 {
            proof {
                bits::lemma_zero(seg_bad);
                assert forall|j: int| from_bit <= j < 64 implies !#[trigger] bits::bit(
                    self.batch_bad,
                    j,
                ) by {
                    assert(!bits::bit(seg_bad, j));
                }
                self.seg_end = Ghost(64);
            }
            self.rem = self.batch_usable & live & !own;
            self.batch_bad = 0;
            assert(self.segment_ok::<C>(b));
        } else {
            let nb: u64 = seg_bad.trailing_zeros() as u64;
            proof {
                bits::lemma_lowest(seg_bad);
                bits::lemma_ranges(nb, 0);
                assert forall|j: int| from_bit <= j < nb implies !#[trigger] bits::bit(
                    self.batch_bad,
                    j,
                ) by {
                    assert(!bits::bit(seg_bad, j));
                }
                assert(bits::bit(self.batch_bad, nb as int));
                assert(nb >= from_bit);
                self.seg_end = Ghost(nb as int);
            }
            let below: u64 = (1u64 << nb) - 1;
            proof {
                assert forall|j: int| 0 <= j < 64 implies #[trigger] bits::bit(below, j) == (j
                    < nb) by {
                    bits::lemma_ranges(nb, j);
                }
            }
            self.rem = self.batch_usable & live & below & !own;
            let rest: u64 = self.batch_usable & (u64::MAX << nb);
            if rest != 0 {
                proof {
                    bits::lemma_lowest(rest);
                    bits::lemma_ranges(nb, rest.trailing_zeros() as int);
                    bits::lemma_zero(self.batch_usable & self.all_bad@);
                    assert(!bits::bit(self.batch_usable & self.all_bad@, nb as int));
                    assert(rest.trailing_zeros() > nb);
                }
                self.scalar_until = self.mask_base + rest.trailing_zeros() as usize;
            } else {
                self.scalar_until = self.mask_base + 64;
            }
            assert(self.segment_ok::<C>(b));
        }
    }

    /// The next piece's byte range, or `None` at end of input.
    fn next_span<C: PretokConfig>(&mut self, text: &str) -> (r: Option<(usize, usize)>)
        requires
            old(self).wf::<C>(text.spec_bytes()),
        ensures
            final(self).wf::<C>(text.spec_bytes()),
            match r {
                Some((s, e)) => {
                    &&& s == old(self).pos < text.spec_bytes().len()
                    &&& e == rules::piece_end::<C>(text.spec_bytes(), s as int)
                    &&& final(self).pos == e
                    &&& s < e
                },
                None => old(self).pos == text.spec_bytes().len() && final(self).pos == old(
                    self,
                ).pos,
            },
    {
        broadcast use bits::group_bits;

        let ghost b = text.spec_bytes();
        let bytes = text.as_bytes();
        let len: usize = bytes.len();
        loop
            invariant
                b == text.spec_bytes(),
                bytes@ == b,
                len == b.len(),
                self.wf::<C>(b),
                self.pos == old(self).pos,
            decreases
                    len + 256 - self.scan,
                    (if self.batch_bad != 0 {
                        1int
                    } else {
                        0int
                    }),
                    (if self.rem != 0 || self.pos < self.scalar_until {
                        0int
                    } else {
                        1int
                    }),
        {
            if self.rem != 0 {
                return Some(self.pop::<C>(Ghost(b)));
            }
            if self.pos < self.scalar_until {
                if self.pos >= len {
                    return None;
                }
                let start: usize = self.pos;
                let end: usize = scalar_advance::<C>(text, start);
                self.jump::<C>(end, Ghost(b));
                return Some((start, end));
            }
            self.refill::<C>(text);
        }
    }

    /// Pop the lowest trusted boundary bit: the pending piece ends there.
    fn pop<C: PretokConfig>(&mut self, Ghost(b): Ghost<Seq<u8>>) -> (r: (usize, usize))
        requires
            old(self).wf::<C>(b),
            old(self).rem != 0,
        ensures
            final(self).wf::<C>(b),
            r.0 == old(self).pos < r.1,
            r.0 < b.len(),
            r.1 == rules::piece_end::<C>(b, r.0 as int),
            final(self).pos == r.1,
            final(self).scan == old(self).scan,
    {
        broadcast use bits::group_bits;

        let tz: usize = self.rem.trailing_zeros() as usize;
        proof {
            bits::lemma_lowest(self.rem);
            assert(bits::bit(self.rem, tz as int));
        }
        let end: usize = self.mask_base + tz;
        let start: usize = self.pos;
        proof {
            let base = self.mask_base as int;
            let (p, hi) = (start as int, end as int);
            let (usable, bad) = (self.batch_usable, self.all_bad@);
            assert(plain_stretch(usable, bad, base, p, hi)) by {
                assert forall|q: int| p <= q < hi && base <= q implies !#[trigger] batch::marked(
                    bad,
                    base,
                    q,
                ) by {
                    assert(!bits::bit(bad, q - base));
                }
                assert forall|q: int| p < q < hi && base <= q implies !#[trigger] batch::marked(
                    usable,
                    base,
                    q,
                ) by {
                    assert(!bits::bit(self.rem, q - base));
                }
            }
            lemma_goes_on::<C>(b, base, usable, bad, p, hi);
            assert(rules::piece_end::<C>(b, start as int) == end);
            rules::law_piece_end::<C>(b, start as int);
            batch::lemma_reached_next::<C>(b, start as int);
        }
        self.rem = self.rem & (self.rem - 1);
        self.pos = end;
        (start, end)
    }

    /// Go on behind a piece that the scalar scanner found.
    fn jump<C: PretokConfig>(&mut self, end: usize, Ghost(b): Ghost<Seq<u8>>)
        requires
            old(self).wf::<C>(b),
            old(self).rem == 0,
            old(self).pos < end <= b.len(),
            old(self).pos < old(self).scalar_until,
            end == rules::piece_end::<C>(b, old(self).pos as int),
        ensures
            final(self).wf::<C>(b),
            final(self).pos == end,
            final(self).scan == old(self).scan,
            final(self).rem == 0,
            final(self).scalar_until == old(self).scalar_until,
    {
        proof {
            rules::law_piece_end::<C>(b, self.pos as int);
            batch::lemma_reached_next::<C>(b, self.pos as int);
            let base = self.mask_base as int;
            bits::lemma_zero(0);
            assert forall|j: int| 0 <= j < 64 implies #[trigger] bits::bit(self.rem, j) == (base + j
                > end && j < self.seg_end@ && bits::bit(self.batch_usable, j)) by {}
        }
        self.pos = end;
    }

    /// A piece that is pending when the batch is through goes on behind it.
    proof fn lemma_batch_done<C: PretokConfig>(&self, b: Seq<u8>)
        requires
            self.wf::<C>(b),
            self.rem == 0,
            self.seg_end@ == 64,
            self.pos < self.mask_base + 64 == self.scan,
        ensures
            rules::piece_end::<C>(b, self.pos as int) >= self.scan,
            batch::settled::<C>(b, self.pos as int, self.scan as int),
    {
        let base = self.mask_base as int;
        let p = self.pos as int;
        let hi = base + 64;
        let usable = self.batch_usable;
        let bad = self.all_bad@;
        assert(plain_stretch(usable, bad, base, p, hi)) by {
            assert forall|q: int| p <= q < hi && base <= q implies !#[trigger] batch::marked(
                bad,
                base,
                q,
            ) by {
                assert(!bits::bit(bad, q - base));
            }
            assert forall|q: int| p < q < hi && base <= q implies !#[trigger] batch::marked(
                usable,
                base,
                q,
            ) by {
                let j = q - base;
                bits::lemma_constants(j);
                assert(bits::bit(self.rem, j) == (base + j > self.pos && j < self.seg_end@
                    && bits::bit(self.batch_usable, j)));
            }
        }
        lemma_goes_on::<C>(b, base, usable, bad, p, hi);
        assert forall|j: int| p <= j < hi implies #[trigger] batch::sure::<C>(b, j) by {
            if j >= base {
                assert(!batch::marked(bad, base, j));
            }
        }
    }

    /// Load the next segment: of the current batch after a scalar gap, else of
    /// the next batch. At the tail, scalar to the end of the buffer.
    fn refill<C: PretokConfig>(&mut self, text: &str)
        requires
            old(self).wf::<C>(text.spec_bytes()),
            old(self).rem == 0,
            old(self).pos >= old(self).scalar_until,
        ensures
            final(self).wf::<C>(text.spec_bytes()),
            final(self).pos == old(self).pos,
            final(self).scan >= old(self).scan,
            final(self).scan == old(self).scan ==> {
                ||| old(self).batch_bad != 0 && final(self).batch_bad == 0
                ||| (old(self).batch_bad != 0 || final(self).batch_bad == 0) && (final(self).rem != 0
                    || final(self).pos < final(self).scalar_until)
            },
    {
        let ghost b = text.spec_bytes();
        let bytes = text.as_bytes();
        let len: usize = bytes.len();
        if self.batch_bad != 0 && self.pos < self.mask_base + 64 {
            let from: u64 = (self.pos - self.mask_base) as u64;
            self.load_segment::<C>(from, Ghost(b));
            return;
        }
        proof {
            if self.pos < self.scan && self.pos < b.len() {
                self.lemma_batch_done::<C>(b);
            }
        }
        self.batch_bad = 0;
        while self.scan + 64 <= self.pos
            invariant
                b == text.spec_bytes(),
                self.wf::<C>(b),
                self.rem == 0,
                self.batch_bad == 0,
                self.pos >= self.scalar_until,
                self.pos == old(self).pos,
                self.scan >= old(self).scan,
                self.pos < self.scan ==> batch::settled::<C>(
                    b,
                    self.pos as int,
                    self.scan as int,
                ) && rules::piece_end::<C>(b, self.pos as int) >= self.scan,
            decreases self.pos + 64 - self.scan,
        {
            proof {
                self.seg_end = Ghost(0);
                bits::lemma_zero(0);
            }
            if self.mask_base == self.scan {
                self.mask_base = self.scan + 64;
                self.scan = self.scan + 64;
            } else {
                self.scan = self.scan + 64;
            }
        }
        if self.scan + 64 > len {
            self.scalar_until = usize::MAX;
            return;
        }
        let masks: (u64, u64) = if self.pre_base == self.scan {
            (self.pre_usable, self.pre_bad)
        } else {
            batch_masks::<C>(text, self.scan)
        };
        self.mask_base = self.scan;
        self.scan = self.scan + 64;
        self.batch_usable = masks.0;
        self.batch_bad = masks.1;
        proof {
            self.all_bad = Ghost(masks.1);
        }
        if self.scan + 64 <= len {
            let ahead = batch_masks::<C>(text, self.scan);
            self.pre_base = self.scan;
            self.pre_usable = ahead.0;
            self.pre_bad = ahead.1;
        } else {
            self.pre_base = usize::MAX;
        }
        if self.pos > self.mask_base {
            let from: u64 = (self.pos - self.mask_base) as u64;
            self.load_segment::<C>(from, Ghost(b));
        } else {
            self.load_segment::<C>(0, Ghost(b));
        }
    }
}

impl MaskState {
    /// Every piece from the pending one on, as `(start, end)` byte offsets:
    /// runs of trusted boundary bits and scalar gaps are drained each in a
    /// loop of its own.
    fn for_each_span<C: PretokConfig>(&mut self, text: &str, out: &mut Vec<(usize, usize)>)
        requires
            old(self).wf::<C>(text.spec_bytes()),
        ensures
            final(self).wf::<C>(text.spec_bytes()),
            final(self).pos == text.spec_bytes().len(),
            offsets(final(out)@) == offsets(old(out)@) + rules::spans::<C>(
                text.spec_bytes(),
                old(self).pos as int,
            ),
    {
        let ghost b = text.spec_bytes();
        let bytes = text.as_bytes();
        let len: usize = bytes.len();
        let ghost all = offsets(out@) + rules::spans::<C>(b, self.pos as int);
        loop
            invariant
                b == text.spec_bytes(),
                bytes@ == b,
                len == b.len(),
                self.wf::<C>(b),
                all == offsets(out@) + rules::spans::<C>(b, self.pos as int),
                all == offsets(old(out)@) + rules::spans::<C>(b, old(self).pos as int),
            decreases
                    len - self.pos,
                    len + 256 - self.scan,
                    (if self.batch_bad != 0 {
                        1int
                    } else {
                        0int
                    }),
                    (if self.rem != 0 || self.pos < self.scalar_until {
                        0int
                    } else {
                        1int
                    }),
        {
            let ghost at = self.pos;
            let ghost start_state = *self;
            while self.rem != 0
                invariant
                    b == text.spec_bytes(),
                    len == b.len(),
                    self.wf::<C>(b),
                    self.pos >= at,
                    self.pos > at || *self == start_state,
                    all == offsets(out@) + rules::spans::<C>(b, self.pos as int),
                decreases len - self.pos,
            {
                let ghost before = offsets(out@);
                let ghost p = self.pos as int;
                let span = self.pop::<C>(Ghost(b));
                out.push(span);
                proof {
                    rules::law_piece_end::<C>(b, p);
                    lemma_one_more::<C>(b, before, offsets(out@), p);
                    assert(offsets(out@) =~= before.push((p, self.pos as int)));
                }
            }
            while self.pos < self.scalar_until
                invariant
                    b == text.spec_bytes(),
                    bytes@ == b,
                    len == b.len(),
                    self.wf::<C>(b),
                    self.rem == 0,
                    self.pos >= at,
                    self.pos > at || *self == start_state,
                    all == offsets(out@) + rules::spans::<C>(b, self.pos as int),
                    all == offsets(old(out)@) + rules::spans::<C>(b, old(self).pos as int),
                decreases len - self.pos,
            {
                if self.pos >= len {
                    assert(all =~= offsets(out@));
                    return;
                }
                let start: usize = self.pos;
                let end: usize = scalar_advance::<C>(text, start);
                let ghost before = offsets(out@);
                self.jump::<C>(end, Ghost(b));
                out.push((start, end));
                proof {
                    lemma_one_more::<C>(b, before, offsets(out@), start as int);
                    assert(offsets(out@) =~= before.push((start as int, end as int)));
                }
            }
            self.refill::<C>(text);
        }
    }
}

/// Offsets as numbers.
pub open spec fn offsets(v: Seq<(usize, usize)>) -> Seq<(int, int)> {
    Seq::new(v.len(), |i: int| (v[i].0 as int, v[i].1 as int))
}

/// The pieces from `p` on are the one at `p` and those behind it.
proof fn lemma_one_more<C: PretokConfig>(
    b: Seq<u8>,
    before: Seq<(int, int)>,
    after: Seq<(int, int)>,
    p: int,
)
    requires
        0 <= p < b.len(),
        p < rules::piece_end::<C>(b, p) <= b.len(),
        after =~= before.push((p, rules::piece_end::<C>(b, p))),
    ensures
        before + rules::spans::<C>(b, p) == after + rules::spans::<C>(
            b,
            rules::piece_end::<C>(b, p),
        ),
{
    assert(before + rules::spans::<C>(b, p) =~= after + rules::spans::<C>(
        b,
        rules::piece_end::<C>(b, p),
    ));
}

/// Mask-scanner pretokenizer over `text`, with the pieces of `Core<C>`.
pub struct Mask<'a, C: PretokConfig> {
    text: &'a str,
    state: MaskState,
    _cfg: PhantomData<C>,
}

impl<'a, C: PretokConfig> Mask<'a, C> {
    /// The bytes of the text.
    pub closed spec fn text(&self) -> Seq<u8> {
        self.text.spec_bytes()
    }

    /// Where the next piece starts.
    pub closed spec fn position(&self) -> int {
        self.state.pos as int
    }

    /// The scanner is at a boundary of its text.
    pub closed spec fn wf(&self) -> bool {
        let b = self.text.spec_bytes();
        &&& self.state.pos <= b.len()
        &&& util::boundary(b, self.state.pos as int)
        &&& scannable(b) ==> self.state.wf::<C>(b)
    }

    /// A scanner at the start of the text. A text so long that positions a
    /// batch ahead of it cannot be counted is scanned by the scalar rules.
    pub fn new(text: &'a str) -> (r: Self)
        ensures
            r.wf(),
            r.text() == text.spec_bytes(),
            r.position() == 0,
    {
        proof {
            vstd::utf8::encode_utf8_valid_utf8(text@);
            util::lemma_boundary_ends(text.spec_bytes());
        }
        Mask { text, state: MaskState::new::<C>(text), _cfg: PhantomData }
    }

    /// The next piece's byte range, or `None` at end of input.
    fn next_span(&mut self) -> (r: Option<(usize, usize)>)
        requires
            old(self).wf(),
        ensures
            final(self).wf(),
            final(self).text == old(self).text,
            match r {
                Some((s, e)) => {
                    &&& s == old(self).position() < old(self).text().len()
                    &&& e == rules::piece_end::<C>(old(self).text(), s as int)
                    &&& final(self).position() == e
                    &&& s < e
                },
                None => old(self).position() == old(self).text().len() && final(self).position()
                    == old(self).position(),
            },
    {
        let len: usize = self.text.as_bytes().len();
        if len <= usize::MAX - 256 {
            self.state.next_span::<C>(self.text)
        } else if self.state.pos >= len {
            None
        } else {
            let start: usize = self.state.pos;
            let end: usize = scalar_advance::<C>(self.text, start);
            self.state.pos = end;
            Some((start, end))
        }
    }

    /// The next piece, or `None` at the end of the text.
    pub fn next(&mut self) -> (r: Option<&'a str>)
        requires
            old(self).wf(),
        ensures
            final(self).wf(),
            final(self).text() == old(self).text(),
            0 <= old(self).position() <= old(self).text().len(),
            old(self).position() == old(self).text().len() ==> r is None && final(self).position()
                == old(self).position(),
            old(self).position() < old(self).text().len() ==> {
                &&& r is Some
                &&& final(self).position() == rules::piece_end::<C>(
                    old(self).text(),
                    old(self).position(),
                )
                &&& old(self).position() < final(self).position() <= old(self).text().len()
                &&& r->0.spec_bytes() == old(self).text().subrange(
                    old(self).position(),
                    final(self).position(),
                )
            },
    {
        proof {
            if self.state.pos < self.text.spec_bytes().len() {
                rules::law_piece_end::<C>(self.text.spec_bytes(), self.state.pos as int);
            }
        }
        match self.next_span() {
            Some((start, end)) => Some(substr(self.text, start, end)),
            None => None,
        }
    }

    /// The pieces from the next one on, drained in one go.
    pub fn for_each_piece(&mut self) -> (r: Vec<&'a str>)
        requires
            old(self).wf(),
        ensures
            final(self).wf(),
            final(self).text() == old(self).text(),
            final(self).position() == old(self).text().len(),
            rules::are_pieces(
                r@,
                old(self).text(),
                rules::spans::<C>(old(self).text(), old(self).position()),
            ),
    {
        let ghost b = self.text.spec_bytes();
        let ghost p = self.state.pos as int;
        let mut found: Vec<(usize, usize)> = Vec::new();
        let len: usize = self.text.as_bytes().len();
        let ghost all = rules::spans::<C>(b, p);
        if len <= usize::MAX - 256 {
            self.state.for_each_span::<C>(self.text, &mut found);
        } else {
            while self.state.pos < len
                invariant
                    self.wf(),
                    self.text == old(self).text,
                    b == self.text.spec_bytes(),
                    len == b.len(),
                    !scannable(b),
                    all == offsets(found@) + rules::spans::<C>(b, self.state.pos as int),
                decreases len - self.state.pos,
            {
                let start: usize = self.state.pos;
                let end: usize = scalar_advance::<C>(self.text, start);
                let ghost before = offsets(found@);
                self.state.pos = end;
                found.push((start, end));
                proof {
                    rules::law_piece_end::<C>(b, start as int);
                    assert(offsets(found@) =~= before.push((start as int, end as int)));
                    lemma_one_more::<C>(b, before, offsets(found@), start as int);
                }
            }
        }
        proof {
            rules::law_pieces_partition::<C>(b, p);
            assert(offsets(found@) =~= all);
        }
        let text: &'a str = self.text;
        let mut out: Vec<&'a str> = Vec::new();
        let mut i: usize = 0;
        while i < found.len()
            invariant
                i <= found.len(),
                b == text.spec_bytes(),
                all == offsets(found@),
                all == rules::spans::<C>(b, p),
                util::boundary(b, p),
                rules::are_pieces(out@, b, all.subrange(0, i as int)),
            decreases found.len() - i,
        {
            let start: usize = found[i].0;
            let end: usize = found[i].1;
            proof {
                rules::law_pieces_partition::<C>(b, p);
                assert(all[i as int] == (start as int, end as int));
                if i + 1 < all.len() {
                    assert(util::boundary(b, all[i + 1].0));
                } else {
                    vstd::utf8::encode_utf8_valid_utf8(text@);
                    util::lemma_boundary_ends(b);
                }
            }
            out.push(substr(text, start, end));
            i = i + 1;
        }
        assert(all.subrange(0, all.len() as int) =~= all);
        out
    }

    /// The pieces that are left, in order.
    pub fn pieces(self) -> (r: Vec<&'a str>)
        requires
            self.wf(),
        ensures
            rules::are_pieces(r@, self.text(), rules::spans::<C>(self.text(), self.position())),
    {
        let mut scanner = self;
        scanner.for_each_piece()
    }
}

} // verus!
