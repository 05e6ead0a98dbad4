//! Encoding many texts.
use crate::added;
use crate::automaton;
use crate::encoder::cache::PretokenCache;
use crate::padding;
use crate::padding::{pad_batch, Encoding, EncodingView};
use crate::postprocessor::push_tokens;
use crate::pretokie::util;
use crate::replace;
use crate::replace::find_every;
use crate::text;
use crate::text::from_utf8_lossy;
use crate::tokenizer;
use crate::tokenizer::encode;
use crate::tokenizer::laws;
use crate::tokenizer::model;
use crate::tokenizer::Tokenizer;
use crate::types::TokenId;
use vstd::prelude::*;
use vstd::slice::*;
use vstd::utf8::*;

verus! {

// ---- sharing out work ----

/// The sum of lengths.
pub open spec fn total(lens: Seq<usize>) -> int
    decreases lens.len(),
{
    if lens.len() == 0 {
        0
    } else {
        total(lens.drop_last()) + lens.last()
    }
}

/// The runs among the first `i` texts, and where the next run starts and how
/// many bytes it has so far: a run is closed once it holds `target` bytes, as
/// long as another one may follow.
pub open spec fn runs(lens: Seq<usize>, target: int, parts: int, i: int) -> (
    Seq<(int, int)>,
    int,
    int,
)
    decreases i,
{
    if i <= 0 {
        (seq![], 0, 0)
    } else {
        let (r, start, acc) = runs(lens, target, parts, i - 1);
        let n = acc + lens[i - 1];
        if n >= target && r.len() + 1 < parts {
            (r.push((start, i)), i, 0)
        } else {
            (r, start, n)
        }
    }
}

/// Runs of roughly equal total bytes.
pub open spec fn balanced_runs(lens: Seq<usize>, parts: int) -> Seq<(int, int)> {
    let (r, start, _) = runs(lens, total(lens) / parts + 1, parts, lens.len() as int);
    if start < lens.len() {
        r.push((start, lens.len() as int))
    } else {
        r
    }
}

/// Ranges as exact numbers.
pub open spec fn ranges(v: Seq<(usize, usize)>) -> Seq<(int, int)> {
    Seq::new(v.len(), |i: int| (v[i].0 as int, v[i].1 as int))
}

proof fn lemma_total(lens: Seq<usize>, i: int)
    requires
        0 <= i <= lens.len(),
    ensures
        0 <= total(lens.subrange(0, i)) <= total(lens),
    decreases lens.len(),
{
    if i < lens.len() {
        lemma_total(lens.drop_last(), i);
        assert(lens.drop_last().subrange(0, i) =~= lens.subrange(0, i));
    } else {
        assert(lens.subrange(0, i) =~= lens);
        if lens.len() > 0 {
            lemma_total(lens.drop_last(), lens.len() - 1);
        }
    }
}

proof fn lemma_runs(lens: Seq<usize>, target: int, parts: int, i: int)
    requires
        0 <= i <= lens.len(),
        parts > 0,
    ensures
        ({
            let (r, start, acc) = runs(lens, target, parts, i);
            &&& 0 <= start <= i
            &&& 0 <= acc <= total(lens.subrange(0, i))
            &&& r.len() < parts
            &&& r.len() <= i
            &&& in_a_row(r, start)
        }),
    decreases i,
{
    if i > 0 {
        lemma_runs(lens, target, parts, i - 1);
        let s = lens.subrange(0, i);
        assert(s.drop_last() =~= lens.subrange(0, i - 1));
        assert(s.last() == lens[i - 1]);
        let (r, start, acc) = runs(lens, target, parts, i - 1);
        lemma_row_push(r, start, i);
        lemma_total(lens, i);
    } else {
        assert(lens.subrange(0, 0) =~= seq![]);
    }
}

/// The ranges follow one another without a gap, from 0 to `end`, and none is empty.
pub open spec fn in_a_row(r: Seq<(int, int)>, end: int) -> bool {
    &&& r.len() == 0 ==> end == 0
    &&& r.len() > 0 ==> r[0].0 == 0 && r.last().1 == end
    &&& forall|i: int| 0 <= i < r.len() ==> (#[trigger] r[i]).0 < r[i].1
    &&& forall|i: int| 0 < i < r.len() ==> (#[trigger] r[i]).0 == r[i - 1].1
}

proof fn lemma_row_push(r: Seq<(int, int)>, start: int, end: int)
    requires
        in_a_row(r, start),
        start < end,
    ensures
        in_a_row(r.push((start, end)), end),
{
    let q = r.push((start, end));
    assert forall|i: int| 0 <= i < q.len() implies (#[trigger] q[i]).0 < q[i].1 by {
        if i < r.len() {
            assert(q[i] == r[i]);
        }
    }
    assert forall|i: int| 0 < i < q.len() implies (#[trigger] q[i]).0 == q[i - 1].1 by {
        if i < r.len() {
            assert(q[i] == r[i]);
        }
    }
}

/// Byte-balanced runs cover all texts, one after another, and are no more
/// than the parts asked for.
pub proof fn law_balanced_runs(lens: Seq<usize>, parts: int)
    requires
        parts > 0,
    ensures
        in_a_row(balanced_runs(lens, parts), lens.len() as int),
        balanced_runs(lens, parts).len() <= parts,
{
    let n = lens.len() as int;
    let t = total(lens) / parts + 1;
    lemma_runs(lens, t, parts, n);
    let (r, start, _) = runs(lens, t, parts, n);
    if start < n {
        lemma_row_push(r, start, n);
    }
}

/// Split texts of these lengths into up to `parts` contiguous runs of roughly
/// equal total bytes.
pub fn byte_balanced_chunks(lens: &[usize], parts: usize) -> (r: Vec<(usize, usize)>)
    requires
        parts > 0,
        total(lens@) < usize::MAX,
    ensures
        ranges(r@) == balanced_runs(lens@, parts as int),
{
    let mut sum: usize = 0;
    let mut i: usize = 0;
    assert(lens@.subrange(0, 0) =~= seq![]);
    while i < lens.len()
        invariant
            i <= lens.len(),
            total(lens@) < usize::MAX,
            sum == total(lens@.subrange(0, i as int)),
        decreases lens.len() - i,
    {
        proof {
            let s = lens@.subrange(0, i + 1);
            assert(s.drop_last() =~= lens@.subrange(0, i as int));
            assert(s.last() == lens@[i as int]);
            lemma_total(lens@, i + 1);
        }
        sum = sum + lens[i];
        i = i + 1;
    }
    assert(lens@.subrange(0, lens@.len() as int) =~= lens@);
    proof {
        vstd::arithmetic::div_mod::lemma_div_is_ordered_by_denominator(sum as int, 1, parts as int);
    }
    let target: usize = sum / parts + 1;
    let mut out: Vec<(usize, usize)> = Vec::new();
    let mut start: usize = 0;
    let mut acc: usize = 0;
    let mut k: usize = 0;
    assert(ranges(out@) =~= seq![]);
    while k < lens.len()
        invariant
            k <= lens.len(),
            parts > 0,
            total(lens@) < usize::MAX,
            (ranges(out@), start as int, acc as int) == runs(
                lens@,
                target as int,
                parts as int,
                k as int,
            ),
        decreases lens.len() - k,
    {
        proof {
            lemma_runs(lens@, target as int, parts as int, k as int);
            let s = lens@.subrange(0, k + 1);
            assert(s.drop_last() =~= lens@.subrange(0, k as int));
            assert(s.last() == lens@[k as int]);
            lemma_total(lens@, k + 1);
        }
        acc = acc + lens[k];
        if acc >= target && out.len() < parts - 1 {
            let ghost before = ranges(out@);
            out.push((start, k + 1));
            assert(ranges(out@) =~= before.push((start as int, k + 1)));
            start = k + 1;
            acc = 0;
        }
        k = k + 1;
    }
    if start < lens.len() {
        let ghost before = ranges(out@);
        out.push((start, lens.len()));
        assert(ranges(out@) =~= before.push((start as int, lens@.len() as int)));
    }
    out
}

// ---- documents in files ----

/// The parts of a buffer between separators, from `start` on, with the
/// separators from the `i`th on; empty ones are dropped.
pub open spec fn docs_from(
    b: Seq<u8>,
    sep_len: int,
    at: Seq<int>,
    i: int,
    start: int,
) -> Seq<Seq<u8>>
    decreases at.len() - i,
{
    if i < 0 || i >= at.len() {
        if start < b.len() {
            seq![b.subrange(start, b.len() as int)]
        } else {
            seq![]
        }
    } else {
        let rest = docs_from(b, sep_len, at, i + 1, at[i] + sep_len);
        if at[i] > start {
            seq![b.subrange(start, at[i])] + rest
        } else {
            rest
        }
    }
}

/// The documents of a buffer.
pub open spec fn docs_of(b: Seq<u8>, separator: Seq<u8>) -> Seq<Seq<u8>> {
    if separator.len() == 0 {
        if b.len() == 0 {
            seq![]
        } else {
            seq![b]
        }
    } else {
        docs_from(
            b,
            separator.len() as int,
            replace::occurrences(b, separator, 0),
            0,
            0,
        )
    }
}

/// The documents of buffers, one buffer after another.
pub open spec fn docs_of_all(buffers: Seq<Vec<u8>>, separator: Seq<u8>) -> Seq<Seq<u8>>
    decreases buffers.len(),
{
    if buffers.len() == 0 {
        seq![]
    } else {
        docs_of_all(buffers.drop_last(), separator) + docs_of(buffers.last()@, separator)
    }
}

/// The contents of slices.
pub open spec fn contents(v: Seq<&[u8]>) -> Seq<Seq<u8>> {
    Seq::new(v.len(), |i: int| v[i]@)
}

/// Append the documents of one buffer.
fn split_buffer<'a>(buf: &'a [u8], separator: &[u8], docs: &mut Vec<&'a [u8]>)
    ensures
        contents(final(docs)@) == contents(old(docs)@) + docs_of(buf@, separator@),
{
    let n: usize = buf.len();
    if separator.len() == 0 {
        if n > 0 {
            docs.push(buf);
        }
        assert(contents(docs@) =~= contents(old(docs)@) + docs_of(buf@, separator@));
        return;
    }
    let ghost b = buf@;
    let ghost sl = separator@.len() as int;
    let found = find_every(buf, separator);
    let ghost at = replace::occurrences(b, separator@, 0);
    let mut start: usize = 0;
    let mut i: usize = 0;
    assert(contents(docs@) + docs_from(b, sl, at, 0, 0) =~= contents(old(docs)@) + docs_of(
        b,
        separator@,
    ));
    while i < found.len()
        invariant
            b == buf@,
            n == b.len(),
            sl == separator@.len() > 0,
            at == replace::occurrences(b, separator@, 0),
            i <= found.len(),
            replace::positions(found@) == at,
            forall|j: int|
                0 <= j < found@.len() ==> replace::occurs_at(b, separator@, #[trigger] found@[j] as int),
            start <= n,
            contents(docs@) + docs_from(b, sl, at, i as int, start as int) == contents(old(docs)@)
                + docs_of(b, separator@),
        decreases found.len() - i,
    {
        let pos: usize = found[i];
        assert(at[i as int] == pos);
        let ghost before = contents(docs@);
        let ghost from = start as int;
        if pos > start {
            docs.push(slice_subrange(buf, start, pos));
            assert(contents(docs@) =~= before.push(b.subrange(start as int, pos as int)));
        }
        start = pos + separator.len();
        assert(contents(docs@) + docs_from(b, sl, at, i + 1, start as int) =~= before + docs_from(
            b,
            sl,
            at,
            i as int,
            from,
        ));
        i = i + 1;
    }
    if start < n {
        let ghost before = contents(docs@);
        docs.push(slice_subrange(buf, start, n));
        assert(contents(docs@) =~= before.push(b.subrange(start as int, n as int)));
    }
    assert(contents(docs@) =~= contents(old(docs)@) + docs_of(b, separator@));
}

/// Split raw file buffers into document byte-slices on `separator`, dropping
/// empty documents. Documents never span files; an empty separator means one
/// document per file.
pub fn split_file_docs<'a>(buffers: &'a [Vec<u8>], separator: &[u8]) -> (docs: Vec<&'a [u8]>)
    ensures
        contents(docs@) == docs_of_all(buffers@, separator@),
{
    let mut docs: Vec<&'a [u8]> = Vec::new();
    let mut i: usize = 0;
    assert(buffers@.subrange(0, 0) =~= seq![]);
    assert(contents(docs@) =~= seq![]);
    while i < buffers.len()
        invariant
            i <= buffers.len(),
            contents(docs@) == docs_of_all(buffers@.subrange(0, i as int), separator@),
        decreases buffers.len() - i,
    {
        split_buffer(buffers[i].as_slice(), separator, &mut docs);
        proof {
            let s = buffers@.subrange(0, i + 1);
            assert(s.drop_last() =~= buffers@.subrange(0, i as int));
            assert(s.last() == buffers@[i as int]);
        }
        i = i + 1;
    }
    assert(buffers@.subrange(0, buffers@.len() as int) =~= buffers@);
    docs
}

// ---- bulk encoding ----

/// The text of a document.
pub open spec fn doc_text(b: Seq<u8>) -> Seq<char> {
    if valid_utf8(b) {
        model::chars_of(b)
    } else {
        text::lossy_text(b)
    }
}

/// Token sequences, one behind the other.
pub open spec fn flat(parts: Seq<Seq<TokenId>>) -> Seq<TokenId>
    decreases parts.len(),
{
    if parts.len() == 0 {
        seq![]
    } else {
        flat(parts.drop_last()) + parts.last()
    }
}

/// The lengths of token sequences.
pub open spec fn lengths(parts: Seq<Seq<TokenId>>) -> Seq<u64> {
    Seq::new(parts.len(), |i: int| parts[i].len() as u64)
}

/// The running sum of the first `i` lengths.
pub open spec fn sum_to(lens: Seq<u64>, i: int) -> int
    decreases i,
{
    if i <= 0 {
        0
    } else {
        sum_to(lens, i - 1) + lens[i - 1]
    }
}

/// Where the documents start and end among all tokens.
pub fn document_offsets(lens: &[u64]) -> (r: Vec<u64>)
    requires
        sum_to(lens@, lens@.len() as int) <= u64::MAX,
    ensures
        r@.len() == lens@.len() + 1,
        forall|i: int| 0 <= i < r@.len() ==> #[trigger] r@[i] == sum_to(lens@, i),
{
    let mut out: Vec<u64> = Vec::new();
    let mut acc: u64 = 0;
    out.push(0);
    let mut i: usize = 0;
    while i < lens.len()
        invariant
            i <= lens.len(),
            sum_to(lens@, lens@.len() as int) <= u64::MAX,
            acc == sum_to(lens@, i as int),
            out@.len() == i + 1,
            forall|j: int| 0 <= j < out@.len() ==> #[trigger] out@[j] == sum_to(lens@, j),
        decreases lens.len() - i,
    {
        proof {
            lemma_sum_to(lens@, i + 1, lens@.len() as int);
        }
        acc = acc + lens[i];
        out.push(acc);
        i = i + 1;
    }
    out
}

proof fn lemma_sum_to(lens: Seq<u64>, i: int, j: int)
    requires
        0 <= i <= j <= lens.len(),
    ensures
        sum_to(lens, i) <= sum_to(lens, j),
    decreases j - i,
{
    if i < j {
        lemma_sum_to(lens, i, j - 1);
    }
}

/// A document's tokens are those between its offsets.
pub proof fn law_documents_are_slices(parts: Seq<Seq<TokenId>>, i: int)
    requires
        0 <= i < parts.len(),
        forall|k: int| 0 <= k < parts.len() ==> (#[trigger] parts[k]).len() <= u64::MAX,
    ensures
        0 <= sum_to(lengths(parts), i) <= sum_to(lengths(parts), i + 1) <= flat(parts).len(),
        flat(parts).subrange(sum_to(lengths(parts), i), sum_to(lengths(parts), i + 1)) == parts[i],
        sum_to(lengths(parts), parts.len() as int) == flat(parts).len(),
    decreases parts.len(),
{
    let front = parts.drop_last();
    let n = parts.len() as int;
    let l = lengths(parts);
    lemma_sum_prefix(parts, n - 1);
    assert(parts[n - 1].len() <= u64::MAX);
    assert(l[n - 1] == parts[n - 1].len());
    assert(sum_to(l, n) == sum_to(l, n - 1) + l[n - 1]);
    assert(flat(parts) == flat(front) + parts[n - 1]);
    assert forall|k: int| 0 <= k < front.len() implies (#[trigger] front[k]).len() <= u64::MAX by {
        assert(parts[k].len() <= u64::MAX);
    }
    if front.len() > 0 {
        law_documents_are_slices(front, if i < front.len() {
            i
        } else {
            front.len() - 1
        });
    }
    lemma_sum_prefix(parts, i);
    let (a, b) = (sum_to(l, i), sum_to(l, i + 1));
    if i < front.len() {
        lemma_sum_prefix(parts, i + 1);
        assert(front[i] == parts[i]);
        assert(flat(parts).subrange(a, b) =~= flat(front).subrange(a, b));
    } else {
        assert(flat(parts).subrange(a, b) =~= parts[i]);
    }
}

proof fn lemma_part_len(parts: Seq<Seq<TokenId>>, k: int)
    requires
        0 <= k < parts.len(),
    ensures
        parts[k].len() <= flat(parts).len(),
    decreases parts.len(),
{
    if k < parts.len() - 1 {
        lemma_part_len(parts.drop_last(), k);
    }
}

proof fn lemma_sum_prefix(parts: Seq<Seq<TokenId>>, i: int)
    requires
        0 <= i < parts.len(),
    ensures
        sum_to(lengths(parts), i) == sum_to(lengths(parts.drop_last()), i),
        0 <= sum_to(lengths(parts), i),
    decreases i,
{
    if i > 0 {
        lemma_sum_prefix(parts, i - 1);
        assert(lengths(parts)[i - 1] == lengths(parts.drop_last())[i - 1]);
    }
}

impl Tokenizer {
    /// Whether a batch of `n` texts is encoded text by text, each of them
    /// shared out if it is long, rather than by batch workers.
    pub open spec fn one_by_one(&self, n: int) -> bool {
        n <= self.pipeline().workers || self.pipeline().workers == 1
    }

    /// Each of some texts can be encoded.
    pub open spec fn texts_encodable(&self, texts: Seq<&str>) -> bool {
        forall|i: int|
            0 <= i < texts.len() ==> model::encodable(
                self.pipeline(),
                (#[trigger] texts[i])@,
                self.one_by_one(texts.len() as int),
            )
    }

    /// Each of some documents can be encoded.
    pub open spec fn docs_encodable(&self, docs: Seq<Seq<u8>>) -> bool {
        forall|i: int|
            0 <= i < docs.len() ==> model::encodable(
                self.pipeline(),
                doc_text(#[trigger] docs[i]),
                false,
            )
    }

    /// What encoding texts gives.
    pub open spec fn encoded_all(&self, texts: Seq<&str>, special: bool) -> Seq<EncodingView> {
        Seq::new(
            texts.len(),
            |i: int| self.encoded(texts[i]@, special, self.one_by_one(texts.len() as int)),
        )
    }

    /// Encode multiple texts, with optional padding.
    pub fn encode_batch(&self, texts: &[&str], add_special_tokens: bool) -> (r: Vec<Encoding>)
        requires
            self.wf(),
            self.texts_encodable(texts@),
        ensures
            padding::encoding_views(r@) == match self.pad_params() {
                Some(p) => padding::padded_batch(self.encoded_all(texts@, add_special_tokens), p),
                None => self.encoded_all(texts@, add_special_tokens),
            },
    {
        let single = texts.len() <= self.workers || self.workers == 1;
        let mut cache: Option<PretokenCache> = if single {
            None
        } else {
            Some(PretokenCache::new())
        };
        let mut out: Vec<Encoding> = Vec::new();
        let mut i: usize = 0;
        while i < texts.len()
            invariant
                self.wf(),
                self.texts_encodable(texts@),
                single == self.one_by_one(texts@.len() as int),
                encode::cache_ok(self.pipeline().rules, cache),
                i <= texts.len(),
                out@.len() == i,
                forall|j: int|
                    0 <= j < i ==> (#[trigger] out@[j]).model() == self.encoded(
                        texts@[j]@,
                        add_special_tokens,
                        single,
                    ),
            decreases texts.len() - i,
        {
            out.push(self.encode_inner(texts[i], add_special_tokens, &mut cache, single));
            i = i + 1;
        }
        assert(padding::encoding_views(out@) =~= self.encoded_all(texts@, add_special_tokens));
        if let Some(pad) = &self.padding {
            pad_batch(&mut out, pad);
        }
        out
    }

    /// The token ids of texts.
    pub open spec fn ids_of_texts(&self, texts: Seq<&str>, special: bool) -> Seq<Seq<TokenId>> {
        Seq::new(
            texts.len(),
            |i: int| self.encoded_ids(texts[i]@, special, self.one_by_one(texts.len() as int)),
        )
    }

    /// Encode multiple texts into one contiguous id buffer: every document's
    /// token ids in order, and how many each has. Padding does not apply.
    pub fn encode_batch_flat(&self, texts: &[&str], add_special_tokens: bool) -> (r: (
        Vec<TokenId>,
        Vec<u64>,
    ))
        requires
            self.wf(),
            self.texts_encodable(texts@),
        ensures
            r.0@ == flat(self.ids_of_texts(texts@, add_special_tokens)),
            r.1@ == lengths(self.ids_of_texts(texts@, add_special_tokens)),
    {
        let single = texts.len() <= self.workers || self.workers == 1;
        let mut cache: Option<PretokenCache> = if single {
            None
        } else {
            Some(PretokenCache::new())
        };
        let ghost all = self.ids_of_texts(texts@, add_special_tokens);
        let mut ids: Vec<TokenId> = Vec::new();
        let mut lens: Vec<u64> = Vec::new();
        let mut i: usize = 0;
        assert(all.subrange(0, 0) =~= seq![]);
        assert(lens@ =~= lengths(all.subrange(0, 0)));
        while i < texts.len()
            invariant
                self.wf(),
                self.texts_encodable(texts@),
                single == self.one_by_one(texts@.len() as int),
                encode::cache_ok(self.pipeline().rules, cache),
                all == self.ids_of_texts(texts@, add_special_tokens),
                i <= texts.len(),
                ids@ == flat(all.subrange(0, i as int)),
                lens@ == lengths(all.subrange(0, i as int)),
            decreases texts.len() - i,
        {
            let v = self.encode_ids_ctx(texts[i], add_special_tokens, &mut cache, single);
            proof {
                let s = all.subrange(0, i + 1);
                assert(s.drop_last() =~= all.subrange(0, i as int));
                assert(s.last() == v@);
                assert(lens@.push(v@.len() as u64) =~= lengths(s));
            }
            lens.push(v.len() as u64);
            push_tokens(&mut ids, v.as_slice());
            i = i + 1;
        }
        assert(all.subrange(0, all.len() as int) =~= all);
        (ids, lens)
    }

    /// The token ids of documents.
    pub open spec fn ids_of_docs(&self, docs: Seq<Seq<u8>>, special: bool) -> Seq<Seq<TokenId>> {
        Seq::new(docs.len(), |i: int| self.encoded_ids(doc_text(docs[i]), special, false))
    }

    /// Encode documents that one batch worker has claimed, by way of its
    /// cache: the token ids in order, and how many each document has. What is
    /// not valid UTF-8 becomes U+FFFD.
    pub fn encode_docs_chunk(
        &self,
        docs: &[&[u8]],
        add_special_tokens: bool,
        cache: &mut Option<PretokenCache>,
    ) -> (r: (Vec<TokenId>, Vec<u64>))
        requires
            self.wf(),
            self.docs_encodable(contents(docs@)),
            encode::cache_ok(self.pipeline().rules, *old(cache)),
        ensures
            encode::cache_ok(self.pipeline().rules, *final(cache)),
            r.0@ == flat(self.ids_of_docs(contents(docs@), add_special_tokens)),
            r.1@ == lengths(self.ids_of_docs(contents(docs@), add_special_tokens)),
    {
        let ghost all = self.ids_of_docs(contents(docs@), add_special_tokens);
        let mut ids: Vec<TokenId> = Vec::new();
        let mut lens: Vec<u64> = Vec::new();
        let mut i: usize = 0;
        assert(all.subrange(0, 0) =~= seq![]);
        assert(lens@ =~= lengths(all.subrange(0, 0)));
        while i < docs.len()
            invariant
                self.wf(),
                self.docs_encodable(contents(docs@)),
                encode::cache_ok(self.pipeline().rules, *cache),
                all == self.ids_of_docs(contents(docs@), add_special_tokens),
                i <= docs.len(),
                ids@ == flat(all.subrange(0, i as int)),
                lens@ == lengths(all.subrange(0, i as int)),
            decreases docs.len() - i,
        {
            let doc: &[u8] = docs[i];
            assert(contents(docs@)[i as int] == doc@);
            let v = match core::str::from_utf8(doc) {
                Ok(s) => {
                    proof {
                        encode_utf8_decode_utf8(s@);
                    }
                    self.encode_ids_ctx(s, add_special_tokens, cache, false)
                },
                Err(_) => {
                    let s = from_utf8_lossy(doc);
                    self.encode_ids_ctx(s.as_str(), add_special_tokens, cache, false)
                },
            };
            proof {
                let s = all.subrange(0, i + 1);
                assert(s.drop_last() =~= all.subrange(0, i as int));
                assert(s.last() == v@);
                assert(lens@.push(v@.len() as u64) =~= lengths(s));
            }
            lens.push(v.len() as u64);
            push_tokens(&mut ids, v.as_slice());
            i = i + 1;
        }
        assert(all.subrange(0, all.len() as int) =~= all);
        (ids, lens)
    }

    /// Bulk-encode document byte-slices into one contiguous id buffer.
    pub fn encode_docs_bytes_flat(&self, docs: &[&[u8]], add_special_tokens: bool) -> (r: (
        Vec<TokenId>,
        Vec<u64>,
    ))
        requires
            self.wf(),
            self.docs_encodable(contents(docs@)),
        ensures
            r.0@ == flat(self.ids_of_docs(contents(docs@), add_special_tokens)),
            r.1@ == lengths(self.ids_of_docs(contents(docs@), add_special_tokens)),
    {
        let mut cache: Option<PretokenCache> = Some(PretokenCache::new());
        self.encode_docs_chunk(docs, add_special_tokens, &mut cache)
    }

    /// Encode the documents of file buffers in bulk: all token ids, and where
    /// among them each document starts and ends.
    pub fn encode_buffers_flat(
        &self,
        buffers: &[Vec<u8>],
        separator: &[u8],
        add_special_tokens: bool,
    ) -> (r: (Vec<TokenId>, Vec<u64>))
        requires
            self.wf(),
            self.docs_encodable(docs_of_all(buffers@, separator@)),
        ensures
            r.0@ == flat(
                self.ids_of_docs(docs_of_all(buffers@, separator@), add_special_tokens),
            ),
            ({
                let parts = self.ids_of_docs(
                    docs_of_all(buffers@, separator@),
                    add_special_tokens,
                );
                &&& r.1@.len() == parts.len() + 1
                &&& forall|i: int|
                    0 <= i <= parts.len() ==> #[trigger] r.1@[i] == sum_to(lengths(parts), i)
            }),
    {
        let docs = split_file_docs(buffers, separator);
        let (ids, lens) = self.encode_docs_bytes_flat(docs.as_slice(), add_special_tokens);
        let n: usize = ids.len();
        proof {
            let parts = self.ids_of_docs(docs_of_all(buffers@, separator@), add_special_tokens);
            assert forall|k: int| 0 <= k < parts.len() implies (#[trigger] parts[k]).len()
                <= u64::MAX by {
                lemma_part_len(parts, k);
                assert(flat(parts).len() == n);
            }
            if parts.len() > 0 {
                law_documents_are_slices(parts, 0);
            }
        }
        let offsets = document_offsets(lens.as_slice());
        (ids, offsets)
    }

    /// Count the tokens of each of multiple texts.
    pub fn count_tokens_batch(&self, texts: &[&str]) -> (r: Vec<usize>)
        requires
            self.wf(),
            self.texts_encodable(texts@),
        ensures
            r@.len() == texts@.len(),
            forall|i: int|
                0 <= i < texts@.len() ==> #[trigger] r@[i] == model::raw_tokens(
                    self.pipeline(),
                    texts@[i]@,
                    self.one_by_one(texts@.len() as int),
                ).len(),
    {
        let single = texts.len() <= self.workers || self.workers == 1;
        let mut cache: Option<PretokenCache> = if single {
            None
        } else {
            Some(PretokenCache::new())
        };
        let mut out: Vec<usize> = Vec::new();
        let mut i: usize = 0;
        while i < texts.len()
            invariant
                self.wf(),
                self.texts_encodable(texts@),
                single == self.one_by_one(texts@.len() as int),
                encode::cache_ok(self.pipeline().rules, cache),
                i <= texts.len(),
                out@.len() == i,
                forall|j: int|
                    0 <= j < i ==> #[trigger] out@[j] == model::raw_tokens(
                        self.pipeline(),
                        texts@[j]@,
                        single,
                    ).len(),
            decreases texts.len() - i,
        {
            let v = self.encode_raw_ctx(texts[i], &mut cache, single);
            out.push(v.len());
            i = i + 1;
        }
        out
    }

    /// How many tokens the documents have together.
    pub open spec fn count_of_docs(&self, docs: Seq<Seq<u8>>) -> int
        decreases docs.len(),
    {
        if docs.len() == 0 {
            0
        } else {
            self.count_of_docs(docs.drop_last()) + model::raw_tokens(
                self.pipeline(),
                doc_text(docs.last()),
                false,
            ).len()
        }
    }

    /// Count the tokens of the documents of file buffers (no special
    /// tokens); `None` where they are too many to be counted.
    pub fn count_tokens_buffers(&self, buffers: &[Vec<u8>], separator: &[u8]) -> (r: Option<usize>)
        requires
            self.wf(),
            self.docs_encodable(docs_of_all(buffers@, separator@)),
        ensures
            match r {
                Some(n) => n == self.count_of_docs(docs_of_all(buffers@, separator@)),
                None => self.count_of_docs(docs_of_all(buffers@, separator@)) > usize::MAX,
            },
    {
        let docs = split_file_docs(buffers, separator);
        let ghost all = contents(docs@);
        let mut cache: Option<PretokenCache> = Some(PretokenCache::new());
        let mut n: usize = 0;
        let mut i: usize = 0;
        assert(all.subrange(0, 0) =~= seq![]);
        while i < docs.len()
            invariant
                self.wf(),
                self.docs_encodable(all),
                encode::cache_ok(self.pipeline().rules, cache),
                all == contents(docs@),
                all == docs_of_all(buffers@, separator@),
                i <= docs.len(),
                n == self.count_of_docs(all.subrange(0, i as int)),
            decreases docs.len() - i,
        {
            let doc: &[u8] = docs[i];
            assert(all[i as int] == doc@);
            let v = match core::str::from_utf8(doc) {
                Ok(s) => {
                    proof {
                        encode_utf8_decode_utf8(s@);
                    }
                    self.encode_raw_ctx(s, &mut cache, false)
                },
                Err(_) => {
                    let s = from_utf8_lossy(doc);
                    self.encode_raw_ctx(s.as_str(), &mut cache, false)
                },
            };
            proof {
                let s = all.subrange(0, i + 1);
                assert(s.drop_last() =~= all.subrange(0, i as int));
                assert(s.last() == doc@);
                self.lemma_count(all, i + 1);
            }
            match n.checked_add(v.len()) {
                Some(m) => {
                    n = m;
                },
                None => {
                    return None;
                },
            }
            i = i + 1;
        }
        assert(all.subrange(0, all.len() as int) =~= all);
        Some(n)
    }

    proof fn lemma_count(&self, docs: Seq<Seq<u8>>, i: int)
        requires
            0 <= i <= docs.len(),
        ensures
            self.count_of_docs(docs.subrange(0, i)) <= self.count_of_docs(docs),
        decreases docs.len(),
    {
        if i < docs.len() {
            self.lemma_count(docs.drop_last(), i);
            assert(docs.drop_last().subrange(0, i) =~= docs.subrange(0, i));
        } else {
            assert(docs.subrange(0, i) =~= docs);
        }
    }
}

// ---- how batches and single texts go together ----

proof fn lemma_flat_concat(a: Seq<Seq<TokenId>>, b: Seq<Seq<TokenId>>)
    ensures
        flat(a + b) == flat(a) + flat(b),
        lengths(a + b) == lengths(a) + lengths(b),
    decreases b.len(),
{
    assert(lengths(a + b) =~= lengths(a) + lengths(b));
    if b.len() == 0 {
        assert(a + b =~= a);
        assert(flat(a) + flat(b) =~= flat(a));
    } else {
        lemma_flat_concat(a, b.drop_last());
        assert((a + b).drop_last() =~= a + b.drop_last());
        assert(flat(a + b) =~= flat(a) + flat(b));
    }
}

/// What workers make of the one and the other half of some documents is what
/// one worker makes of them all.
pub proof fn law_documents_in_batches(
    t: Tokenizer,
    a: Seq<Seq<u8>>,
    b: Seq<Seq<u8>>,
    special: bool,
)
    ensures
        flat(t.ids_of_docs(a + b, special)) == flat(t.ids_of_docs(a, special)) + flat(
            t.ids_of_docs(b, special),
        ),
        lengths(t.ids_of_docs(a + b, special)) == lengths(t.ids_of_docs(a, special)) + lengths(
            t.ids_of_docs(b, special),
        ),
{
    assert(t.ids_of_docs(a + b, special) =~= t.ids_of_docs(a, special) + t.ids_of_docs(
        b,
        special,
    ));
    lemma_flat_concat(t.ids_of_docs(a, special), t.ids_of_docs(b, special));
}

/// Without padding, a batch holds the ids that the flat buffer holds.
pub proof fn law_flat_is_batch(t: Tokenizer, texts: Seq<&str>, special: bool, i: int)
    requires
        t.pad_params() is None,
        0 <= i < texts.len(),
    ensures
        t.encoded_all(texts, special)[i].ids == t.ids_of_texts(texts, special)[i],
{
}

/// The normalized form of a raw segment, where tokens are looked for in it, is
/// short too.
pub open spec fn form_is_short(p: model::Pipeline, s: Seq<char>, first: bool) -> bool {
    p.norm is Some ==> text::utf8(p.normalizer.segment_form(s, first)).len()
        < model::PARALLEL_CHUNK_THRESHOLD
}

/// A text is short, and so are the forms of its raw segments.
pub open spec fn is_short(p: model::Pipeline, s: Seq<char>) -> bool {
    let b = text::utf8(s);
    &&& b.len() < model::PARALLEL_CHUNK_THRESHOLD
    &&& forall|i: int|
        0 <= i < model::raw_parts(p, b).len() && (#[trigger] model::raw_parts(p, b)[i]).0 is None
            ==> form_is_short(
            p,
            model::chars_of(b.subrange(model::raw_parts(p, b)[i].1, model::raw_parts(p, b)[i].2)),
            model::raw_parts(p, b)[i].1 == 0,
        )
}

/// A short text is encoded alike whether or not long ones are shared out.
pub proof fn law_short_text(t: Tokenizer, s: Seq<char>)
    requires
        t.wf(),
        is_short(t.pipeline(), s),
    ensures
        model::raw_tokens(t.pipeline(), s, true) == model::raw_tokens(t.pipeline(), s, false),
{
    let p = t.pipeline();
    let b = text::utf8(s);
    t.lemma_parts();
    encode_utf8_valid_utf8(s);
    util::lemma_boundary_ends(b);
    if p.raw is Some || p.norm is Some {
        if let Some(patterns) = p.raw {
            lemma_parts_of_matches(p, patterns, b);
        }
        lemma_short_parts(p, b, model::raw_parts(p, b));
    }
}

/// What a sequence takes up in the flat buffer stands behind what the ones
/// before it take up.
pub proof fn law_part_of_flat(parts: Seq<Seq<TokenId>>, i: int)
    requires
        0 <= i < parts.len(),
    ensures
        ({
            let start = flat(parts.subrange(0, i)).len() as int;
            &&& start + parts[i].len() <= flat(parts).len()
            &&& flat(parts).subrange(start, start + parts[i].len()) == parts[i]
        }),
{
    let front = parts.subrange(0, i);
    let rest = parts.subrange(i + 1, parts.len() as int);
    let mid = front.push(parts[i]);
    assert(parts =~= mid + rest);
    lemma_flat_concat(mid, rest);
    assert(mid.drop_last() =~= front);
    let start = flat(front).len() as int;
    assert(flat(parts).subrange(start, start + parts[i].len()) =~= parts[i]);
}

/// The ids that a short document takes up in a flat buffer are those that it
/// has when it is encoded alone.
pub proof fn law_short_document(t: Tokenizer, docs: Seq<Seq<u8>>, special: bool, i: int)
    requires
        t.wf(),
        0 <= i < docs.len(),
        is_short(t.pipeline(), doc_text(docs[i])),
    ensures
        ({
            let all = t.ids_of_docs(docs, special);
            let start = flat(all.subrange(0, i)).len() as int;
            let alone = t.encoded_ids(doc_text(docs[i]), special, true);
            &&& all[i] == alone
            &&& start + alone.len() <= flat(all).len()
            &&& flat(all).subrange(start, start + alone.len()) == alone
        }),
{
    law_short_text(t, doc_text(docs[i]));
    law_part_of_flat(t.ids_of_docs(docs, special), i);
}

/// The parts between which the found tokens cut a text are in order.
pub proof fn lemma_parts_of_matches(p: model::Pipeline, patterns: Seq<automaton::Pattern>, b: Seq<u8>)
    requires
        valid_utf8(b),
        tokenizer::finds_tokens(patterns, p.added.len() as int),
    ensures
        added::parts_ok(
            b,
            added::parts_from(b, p.added, automaton::matches_in(patterns, b), 0, 0),
            p.added.len() as int,
        ),
        added::no_gaps(
            b,
            added::parts_from(b, p.added, automaton::matches_in(patterns, b), 0, 0),
            0,
        ),
        added::apart(b, automaton::matches_in(patterns, b)) ==> added::consecutive(
            b,
            added::parts_from(b, p.added, automaton::matches_in(patterns, b), 0, 0),
            0,
        ),
{
    let found = automaton::matches_in(patterns, b);
    assert forall|i: int| 0 <= i < found.len() implies (#[trigger] found[i]).0 < p.added.len() && 0
        <= found[i].1 <= found[i].2 <= b.len() by {
        assert(automaton::is_match(patterns, b, found[i]));
        let k = choose|k: int|
            0 <= k < patterns.len() && #[trigger] patterns[k] == (
                b.subrange(found[i].1, found[i].2),
                found[i].0,
            );
        assert(patterns[k].1 == found[i].0);
    }
    added::law_parts_cover(b, p.added, found);
    if added::apart(b, found) {
        added::law_parts_follow(b, p.added, found);
    }
}

/// A short text without added tokens is encoded alike.
proof fn lemma_short_inner(p: model::Pipeline, b: Seq<u8>, x: int, y: int)
    requires
        b.len() < model::PARALLEL_CHUNK_THRESHOLD,
        util::boundary(b, x),
        util::boundary(b, y),
        0 <= x <= y <= b.len(),
    ensures
        ({
            let s = model::chars_of(b.subrange(x, y));
            &&& model::inner_tokens(p, s, true) == model::inner_tokens(p, s, false)
            &&& text::utf8(s) == b.subrange(x, y)
        }),
{
    laws::lemma_valid_between(b, x, y);
    decode_utf8_encode_utf8(b.subrange(x, y));
}

proof fn lemma_short_norm_parts(p: model::Pipeline, b: Seq<u8>, parts: Seq<added::Part>)
    requires
        b.len() < model::PARALLEL_CHUNK_THRESHOLD,
        added::parts_ok(b, parts, p.added.len() as int),
    ensures
        model::norm_parts_tokens(p, b, parts, true) == model::norm_parts_tokens(
            p,
            b,
            parts,
            false,
        ),
    decreases parts.len(),
{
    if parts.len() > 0 {
        let front = parts.drop_last();
        let l = parts.last();
        assert forall|j: int| 0 <= j < front.len() implies added::part_ok(
            b,
            #[trigger] front[j],
            p.added.len() as int,
        ) by {
            assert(front[j] == parts[j]);
        }
        lemma_short_norm_parts(p, b, front);
        assert(added::part_ok(b, parts[parts.len() - 1], p.added.len() as int));
        if l.0 is None {
            lemma_short_inner(p, b, l.1, l.2);
        }
    }
}

proof fn lemma_short_parts(p: model::Pipeline, b: Seq<u8>, parts: Seq<added::Part>)
    requires
        b.len() < model::PARALLEL_CHUNK_THRESHOLD,
        added::parts_ok(b, parts, p.added.len() as int),
        p.norm matches Some(patterns) ==> tokenizer::finds_tokens(patterns, p.added.len() as int),
        forall|i: int|
            0 <= i < parts.len() && (#[trigger] parts[i]).0 is None ==> form_is_short(
                p,
                model::chars_of(b.subrange(parts[i].1, parts[i].2)),
                parts[i].1 == 0,
            ),
    ensures
        model::raw_parts_tokens(p, b, parts, true) == model::raw_parts_tokens(p, b, parts, false),
    decreases parts.len(),
{
    if parts.len() > 0 {
        let front = parts.drop_last();
        let l = parts.last();
        assert forall|j: int| 0 <= j < front.len() implies added::part_ok(
            b,
            #[trigger] front[j],
            p.added.len() as int,
        ) by {
            assert(front[j] == parts[j]);
        }
        assert forall|i: int|
            0 <= i < front.len() && (#[trigger] front[i]).0 is None implies form_is_short(
            p,
            model::chars_of(b.subrange(front[i].1, front[i].2)),
            front[i].1 == 0,
        ) by {
            assert(front[i] == parts[i]);
        }
        lemma_short_parts(p, b, front);
        assert(added::part_ok(b, parts[parts.len() - 1], p.added.len() as int));
        if l.0 is None {
            lemma_short_inner(p, b, l.1, l.2);
            if let Some(patterns) = p.norm {
                let s = model::chars_of(b.subrange(l.1, l.2));
                let f = text::utf8(p.normalizer.segment_form(s, l.1 == 0));
                assert(form_is_short(p, s, l.1 == 0));
                encode_utf8_valid_utf8(p.normalizer.segment_form(s, l.1 == 0));
                lemma_parts_of_matches(p, patterns, f);
                lemma_short_norm_parts(
                    p,
                    f,
                    added::parts_from(f, p.added, automaton::matches_in(patterns, f), 0, 0),
                );
            }
        }
    }
}

} // verus!
