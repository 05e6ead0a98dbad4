//! SentencePiece `precompiled_charsmap` normalization.
//!
//! SentencePiece models embed their normalizer as a binary `precompiled_charsmap`
//! blob: a darts-clone double-array trie mapping source byte sequences to offsets
//! into a NUL-separated replacement string. The blob is applied per grapheme
//! cluster.
//!
//! Blob layout: `[trie_byte_len: u32 le][trie: [u32]][replacements: str]`.
use crate::bytes;
use crate::bytes::{read_u32, to_vec};
use crate::pretokie::util;
use crate::text;
use crate::text::substr;
use unicode_segmentation::UnicodeSegmentation;
use vstd::prelude::*;
use vstd::slice::*;
use vstd::string::*;
use vstd::utf8::*;

verus! {

/// Error parsing a `precompiled_charsmap` blob.
#[derive(Clone, Copy, Debug, PartialEq, Eq, Structural)]
pub enum CharsmapError {
    /// Blob too short or trie section out of bounds.
    Truncated,
    /// Replacement section is not valid UTF-8.
    InvalidUtf8,
}

impl CharsmapError {
    /// The error as a sentence.
    pub fn message(&self) -> (r: &'static str)
        ensures
            r@ == match *self {
                CharsmapError::Truncated => "precompiled_charsmap blob truncated"@,
                CharsmapError::InvalidUtf8 => "precompiled_charsmap replacements not UTF-8"@,
            },
    {
        match self {
            CharsmapError::Truncated => "precompiled_charsmap blob truncated",
            CharsmapError::InvalidUtf8 => "precompiled_charsmap replacements not UTF-8",
        }
    }
}

// ---- the double array ----

/// The unit has a leaf child, which holds a value.
pub open spec fn has_leaf_spec(unit: u32) -> bool {
    (unit >> 8) & 1 == 1
}

/// The value of a leaf unit.
pub open spec fn value_spec(unit: u32) -> u32 {
    unit & 0x7fff_ffff
}

/// The label of a unit: the byte that leads to it.
pub open spec fn label_spec(unit: u32) -> u32 {
    unit & 0x8000_00ff
}

/// The offset from a unit to its children.
pub open spec fn offset_spec(unit: u32) -> u32 {
    (unit >> 10) << ((unit & 0x200) >> 6)
}

fn has_leaf(unit: u32) -> (r: bool)
    ensures
        r == has_leaf_spec(unit),
{
    (unit >> 8) & 1 == 1
}

fn value(unit: u32) -> (r: u32)
    ensures
        r == value_spec(unit),
{
    unit & 0x7fff_ffff
}

fn label(unit: u32) -> (r: u32)
    ensures
        r == label_spec(unit),
{
    unit & 0x8000_00ff
}

fn offset(unit: u32) -> (r: u32)
    ensures
        r == offset_spec(unit),
{
    assert((unit & 0x200) >> 6 < 32) by (bit_vector);
    (unit >> 10) << ((unit & 0x200) >> 6)
}

/// The value of the shortest non-empty prefix of `key[i..]` that the trie
/// holds below the node at `node`. A NUL byte ends the key.
pub open spec fn prefix_value(trie: Seq<u32>, key: Seq<u8>, i: int, node: u32) -> Option<u32>
    decreases key.len() - i,
{
    if !(0 <= i < key.len()) || key[i] == 0 {
        None
    } else {
        let child = node ^ (key[i] as u32);
        if child >= trie.len() || label_spec(trie[child as int]) != key[i] {
            None
        } else {
            let unit = trie[child as int];
            let next = child ^ offset_spec(unit);
            if !has_leaf_spec(unit) {
                prefix_value(trie, key, i + 1, next)
            } else if next < trie.len() {
                Some(value_spec(trie[next as int]))
            } else {
                None
            }
        }
    }
}

/// The value of the shortest non-empty prefix of `key` that the trie holds.
pub open spec fn first_prefix_value(trie: Seq<u32>, key: Seq<u8>) -> Option<u32> {
    if trie.len() == 0 {
        None
    } else {
        prefix_value(trie, key, 0, offset_spec(trie[0]))
    }
}

/// The first NUL of `b` at `p` or behind it, or the end of `b`.
pub open spec fn nul_end(b: Seq<u8>, p: int) -> int
    decreases b.len() - p,
{
    if p >= b.len() || b[p] == 0 {
        p
    } else {
        nul_end(b, p + 1)
    }
}

/// The replacement that starts at `p`: the text up to the next NUL. There is
/// none where `p` lies outside the text or inside a character.
pub open spec fn replacement_at(b: Seq<u8>, p: int) -> Option<Seq<u8>> {
    if p <= b.len() && util::boundary(b, p) {
        Some(b.subrange(p, nul_end(b, p)))
    } else {
        None
    }
}

/// The replacement of `key`, if it has one.
pub open spec fn replacement(trie: Seq<u32>, replacements: Seq<u8>, key: Seq<u8>) -> Option<
    Seq<u8>,
> {
    match first_prefix_value(trie, key) {
        Some(start) => replacement_at(replacements, start as int),
        None => None,
    }
}

/// What becomes of `key`: its replacement, or itself.
pub open spec fn replaced(trie: Seq<u32>, replacements: Seq<u8>, key: Seq<u8>) -> Seq<u8> {
    match replacement(trie, replacements, key) {
        Some(r) => r,
        None => key,
    }
}

// ---- grapheme clusters ----

/// The extended grapheme clusters of a text (UAX #29), in order.
pub uninterp spec fn grapheme_clusters(s: Seq<char>) -> Seq<Seq<char>>;

/// Texts, one after another.
pub open spec fn concatenated(parts: Seq<Seq<char>>) -> Seq<char>
    decreases parts.len(),
{
    if parts.len() == 0 {
        seq![]
    } else {
        parts[0] + concatenated(parts.drop_first())
    }
}

/// Trusted: `UnicodeSegmentation::graphemes` with extended clusters. The
/// clusters are a function of the text, and joined they are the text.
#[verifier::external_body]
fn graphemes<'a>(s: &'a str) -> (r: Vec<&'a str>)
    ensures
        Seq::new(r@.len(), |i: int| r@[i]@) == grapheme_clusters(s@),
        concatenated(Seq::new(r@.len(), |i: int| r@[i]@)) == s@,
{
    UnicodeSegmentation::graphemes(s, true).collect()
}

/// What becomes of the characters `s[i..]` one by one.
pub open spec fn chars_replaced(trie: Seq<u32>, rep: Seq<u8>, s: Seq<char>) -> Seq<u8>
    decreases s.len(),
{
    if s.len() == 0 {
        seq![]
    } else {
        replaced(trie, rep, text::utf8(seq![s[0]])) + chars_replaced(trie, rep, s.drop_first())
    }
}

/// What becomes of a grapheme cluster: if it is under 6 bytes and has a
/// replacement, that; otherwise what becomes of its characters.
pub open spec fn cluster_replaced(trie: Seq<u32>, rep: Seq<u8>, g: Seq<char>) -> Seq<u8> {
    match replacement(trie, rep, text::utf8(g)) {
        Some(r) if text::utf8(g).len() < 6 => r,
        _ => chars_replaced(trie, rep, g),
    }
}

/// What becomes of grapheme clusters, one after another.
pub open spec fn clusters_replaced(trie: Seq<u32>, rep: Seq<u8>, gs: Seq<Seq<char>>) -> Seq<u8>
    decreases gs.len(),
{
    if gs.len() == 0 {
        seq![]
    } else {
        cluster_replaced(trie, rep, gs[0]) + clusters_replaced(trie, rep, gs.drop_first())
    }
}

// ---- whole texts ----

/// Between the bytes at `j - 1` and `j` lies a sure cluster boundary: both
/// are ASCII, and they are not a CR LF pair.
pub open spec fn sure_break(b: Seq<u8>, j: int) -> bool {
    b[j] < 0x80 && b[j - 1] < 0x80 && !(b[j - 1] == 0x0d && b[j] == 0x0a)
}

/// The first sure boundary at `j` or behind it, or the end of the text.
pub open spec fn region_end(b: Seq<u8>, j: int) -> int
    decreases b.len() - j,
{
    if j >= b.len() || sure_break(b, j) {
        j
    } else {
        region_end(b, j + 1)
    }
}

/// The character at `i` is ASCII, and so is the one behind it, if there is one.
pub open spec fn plain_ascii(b: Seq<u8>, i: int) -> bool {
    b[i] < 0x80 && (i + 1 >= b.len() || b[i + 1] < 0x80)
}

/// What becomes of the text `b` from `i` on: an ASCII character with an ASCII
/// neighbour is its own cluster, CR LF is one, and the stretches between sure
/// boundaries go cluster by cluster.
pub open spec fn normalized_from(trie: Seq<u32>, rep: Seq<u8>, b: Seq<u8>, i: int) -> Seq<u8>
    decreases b.len() - i,
{
    if !(0 <= i < b.len()) {
        seq![]
    } else if plain_ascii(b, i) {
        if b[i] == 0x0d && i + 1 < b.len() && b[i + 1] == 0x0a {
            replaced(trie, rep, seq![0x0du8, 0x0au8]) + normalized_from(trie, rep, b, i + 2)
        } else {
            replaced(trie, rep, seq![b[i]]) + normalized_from(trie, rep, b, i + 1)
        }
    } else {
        let j = region_end(b, i + 1);
        if i < j <= b.len() {
            clusters_replaced(trie, rep, grapheme_clusters(decode_utf8(b.subrange(i, j))))
                + normalized_from(trie, rep, b, j)
        } else {
            seq![]
        }
    }
}

/// What becomes of a text.
pub open spec fn normalized(trie: Seq<u32>, rep: Seq<u8>, b: Seq<u8>) -> Seq<u8> {
    normalized_from(trie, rep, b, 0)
}

// ---- blobs ----

/// The trie of a blob.
pub open spec fn blob_trie(blob: Seq<u8>) -> Seq<u32> {
    Seq::new((bytes::u32_at(blob, 0) / 4) as nat, |i: int| bytes::u32_at(blob, 4 + 4 * i))
}

/// The replacement section of a blob.
pub open spec fn blob_replacements(blob: Seq<u8>) -> Seq<u8> {
    blob.subrange(4 + bytes::u32_at(blob, 0), blob.len() as int)
}

/// The blob holds a trie of whole units, and what follows it is UTF-8; or the
/// error that says which of these fails first.
pub open spec fn blob_error(blob: Seq<u8>) -> Option<CharsmapError> {
    if blob.len() < 4 || 4 + bytes::u32_at(blob, 0) > blob.len() || bytes::u32_at(blob, 0) % 4
        != 0 {
        Some(CharsmapError::Truncated)
    } else if !valid_utf8(blob_replacements(blob)) {
        Some(CharsmapError::InvalidUtf8)
    } else {
        None
    }
}

/// Trusted: `memchr::memchr` finds the first position of a byte.
pub assume_specification[ memchr::memchr ](needle: u8, haystack: &[u8]) -> (r: Option<usize>)
    ensures
        match r {
            Some(i) => i < haystack.len() && haystack@[i as int] == needle && forall|j: int|
                0 <= j < i ==> haystack@[j] != needle,
            None => forall|j: int| 0 <= j < haystack.len() ==> haystack@[j] != needle,
        },
;

/// The first NUL behind `p` is where the bytes before it hold none.
proof fn lemma_nul_end(b: Seq<u8>, p: int, e: int)
    requires
        0 <= p <= e <= b.len(),
        forall|j: int| p <= j < e ==> b[j] != 0,
        e == b.len() || b[e] == 0,
    ensures
        nul_end(b, p) == e,
    decreases e - p,
{
    if p < e {
        lemma_nul_end(b, p + 1, e);
    }
}

/// A parsed SentencePiece `precompiled_charsmap`.
///
/// Keeps the raw blob and precomputes single-ASCII-char replacements so
/// ASCII-heavy text skips grapheme segmentation and trie walks.
#[derive(Clone, Debug, PartialEq, Eq)]
pub struct PrecompiledCharsmap {
    blob: Vec<u8>,
    trie: Vec<u32>,
    replacements: String,
    /// Replacement for each single ASCII char; `None` = kept verbatim.
    ascii: Vec<Option<String>>,
    /// Replacement for the "\r\n" grapheme cluster; `None` = kept verbatim.
    crlf: Option<String>,
}

/// `o` holds the replacement of `key`, if there is one.
pub open spec fn is_replacement(o: Option<String>, r: Option<Seq<u8>>) -> bool {
    match (o, r) {
        (Some(s), Some(b)) => text::utf8(s@) == b,
        (None, None) => true,
        _ => false,
    }
}

impl PrecompiledCharsmap {
    /// The blob that the charsmap was parsed from.
    pub closed spec fn raw(&self) -> Seq<u8> {
        self.blob@
    }

    /// The parts are those of the blob.
    pub closed spec fn wf(&self) -> bool {
        &&& blob_error(self.blob@) is None
        &&& self.trie@ == blob_trie(self.blob@)
        &&& text::utf8(self.replacements@) == blob_replacements(self.blob@)
        &&& self.ascii@.len() == 128
        &&& forall|i: int|
            0 <= i < 128 ==> is_replacement(
                #[trigger] self.ascii@[i],
                self.replacement_of(seq![i as u8]),
            )
        &&& is_replacement(self.crlf, self.replacement_of(seq![0x0du8, 0x0au8]))
    }

    /// The blob of a charsmap in order can be parsed.
    pub proof fn lemma_blob(&self)
        requires
            self.wf(),
        ensures
            blob_error(self.raw()) is None,
    {
    }

    /// The replacement of `key` under this charsmap.
    pub closed spec fn replacement_of(&self, key: Seq<u8>) -> Option<Seq<u8>> {
        replacement(self.trie@, text::utf8(self.replacements@), key)
    }

    /// What the charsmap makes of a text: see [`normalized`].
    pub open spec fn normal_form(&self, b: Seq<u8>) -> Seq<u8> {
        normalized(blob_trie(self.raw()), blob_replacements(self.raw()), b)
    }

    /// Shortest-prefix trie match for `key`, returning the replacement offset.
    fn first_prefix_match(trie: &Vec<u32>, key: &[u8]) -> (r: Option<u32>)
        ensures
            r == first_prefix_value(trie@, key@),
    {
        if trie.len() == 0 {
            return None;
        }
        let mut node: u32 = offset(trie[0]);
        let mut i: usize = 0;
        while i < key.len()
            invariant
                i <= key.len(),
                trie@.len() > 0,
                first_prefix_value(trie@, key@) == prefix_value(trie@, key@, i as int, node),
            decreases key.len() - i,
        {
            let c: u8 = key[i];
            if c == 0 {
                return None;
            }
            node = node ^ (c as u32);
            if node as usize >= trie.len() {
                return None;
            }
            let unit: u32 = trie[node as usize];
            if label(unit) != c as u32 {
                return None;
            }
            node = node ^ offset(unit);
            if has_leaf(unit) {
                if node as usize >= trie.len() {
                    return None;
                }
                return Some(value(trie[node as usize]));
            }
            i = i + 1;
        }
        None
    }

    /// Look up the replacement for `chunk`. `None` means keep it verbatim.
    fn transform<'a>(trie: &Vec<u32>, replacements: &'a String, chunk: &str) -> (r: Option<&'a str>)
        ensures
            match r {
                Some(s) => replacement(trie@, text::utf8(replacements@), text::utf8(chunk@))
                    == Some(text::utf8(s@)),
                None => replacement(trie@, text::utf8(replacements@), text::utf8(chunk@)) is None,
            },
    {
        let start = match Self::first_prefix_match(trie, chunk.as_bytes()) {
            Some(v) => v as usize,
            None => return None,
        };
        let rep: &'a str = replacements.as_str();
        let b = rep.as_bytes();
        if start > b.len() {
            return None;
        }
        proof {
            encode_utf8_valid_utf8(rep@);
        }
        if !rep.is_char_boundary(start) {
            proof {
                if util::boundary(b@, start as int) {
                    util::lemma_boundary_is_char_boundary(b@, start as int);
                }
            }
            return None;
        }
        proof {
            valid_utf8_split(b@, start as int);
        }
        let rest = slice_subrange(b, start, b.len());
        let end: usize = match memchr::memchr(0, rest) {
            Some(p) => start + p,
            None => b.len(),
        };
        proof {
            assert forall|j: int| start <= j < end implies b@[j] != 0 by {
                assert(rest@[j - start] == b@[j]);
            }
            lemma_nul_end(b@, start as int, end as int);
            text::lemma_lead_is_boundary(b@, end as int);
        }
        Some(substr(rep, start, end))
    }

    /// The raw blob this charsmap was parsed from.
    pub fn blob(&self) -> (r: &[u8])
        ensures
            r@ == self.raw(),
    {
        self.blob.as_slice()
    }

    /// Parse a raw `precompiled_charsmap` blob.
    pub fn from_blob(blob: &[u8]) -> (r: Result<Self, CharsmapError>)
        ensures
            match r {
                Ok(m) => blob_error(blob@) is None && m.wf() && m.raw() == blob@,
                Err(e) => blob_error(blob@) == Some(e),
            },
    {
        if blob.len() < 4 {
            return Err(CharsmapError::Truncated);
        }
        let trie_bytes: usize = read_u32(blob, 0) as usize;
        if trie_bytes > blob.len() - 4 || trie_bytes % 4 != 0 {
            return Err(CharsmapError::Truncated);
        }
        let trie_end: usize = 4 + trie_bytes;
        let replacements = match core::str::from_utf8(slice_subrange(blob, trie_end, blob.len())) {
            Ok(s) => s.to_owned(),
            Err(_) => return Err(CharsmapError::InvalidUtf8),
        };
        let mut trie: Vec<u32> = Vec::new();
        let units: usize = trie_bytes / 4;
        let mut i: usize = 0;
        while i < units
            invariant
                i <= units,
                4 + 4 * units <= blob.len(),
                units == bytes::u32_at(blob@, 0) / 4,
                trie@ =~= blob_trie(blob@).subrange(0, i as int),
            decreases units - i,
        {
            let unit: u32 = read_u32(blob, 4 + 4 * i);
            trie.push(unit);
            i = i + 1;
        }
        assert(trie@ =~= blob_trie(blob@));
        let mut ascii: Vec<Option<String>> = Vec::new();
        let mut k: u8 = 0;
        while k < 128
            invariant
                k <= 128,
                ascii@.len() == k,
                forall|i: int|
                    0 <= i < k ==> is_replacement(
                        #[trigger] ascii@[i],
                        replacement(trie@, text::utf8(replacements@), seq![i as u8]),
                    ),
            decreases 128 - k,
        {
            let mut key = String::new();
            key.push(k as char);
            proof {
                assert(key@ =~= seq![k as char]);
                text::lemma_utf8_ascii(k as char);
            }
            let entry = Self::transform(&trie, &replacements, key.as_str());
            let owned = match entry {
                Some(s) => Some(s.to_owned()),
                None => None,
            };
            ascii.push(owned);
            k = k + 1;
        }
        let mut pair = String::new();
        pair.push('\r');
        pair.push('\n');
        proof {
            lemma_crlf();
            assert(pair@ =~= seq!['\r', '\n']);
        }
        let crlf = match Self::transform(&trie, &replacements, pair.as_str()) {
            Some(s) => Some(s.to_owned()),
            None => None,
        };
        Ok(PrecompiledCharsmap { blob: to_vec(blob), trie, replacements, ascii, crlf })
    }

    /// Append `r` where there is one, else `key`.
    fn push_replaced(out: &mut String, r: Option<&str>, key: &str)
        ensures
            text::utf8(final(out)@) == text::utf8(old(out)@) + match r {
                Some(s) => text::utf8(s@),
                None => text::utf8(key@),
            },
    {
        match r {
            Some(s) => {
                proof {
                    text::lemma_utf8_concat(out@, s@);
                }
                out.push_str(s);
            },
            None => {
                proof {
                    text::lemma_utf8_concat(out@, key@);
                }
                out.push_str(key);
            },
        }
    }

    /// Character-by-character transform of a grapheme cluster.
    fn normalize_chars(&self, cluster: &str, out: &mut String)
        requires
            self.wf(),
        ensures
            text::utf8(final(out)@) == text::utf8(old(out)@) + chars_replaced(
                blob_trie(self.raw()),
                blob_replacements(self.raw()),
                cluster@,
            ),
    {
        let ghost (t, rep) = (blob_trie(self.raw()), blob_replacements(self.raw()));
        let ghost want = text::utf8(out@) + chars_replaced(t, rep, cluster@);
        assert(cluster@.subrange(0, cluster@.len() as int) =~= cluster@);
        for c in it: cluster.chars()
            invariant
                self.wf(),
                t == blob_trie(self.raw()),
                rep == blob_replacements(self.raw()),
                it.seq() == cluster@,
                want == text::utf8(out@) + chars_replaced(
                    t,
                    rep,
                    cluster@.subrange(it.index() as int, cluster@.len() as int),
                ),
        {
            let ghost rest = cluster@.subrange(it.index() as int, cluster@.len() as int);
            let ghost before = text::utf8(out@);
            let mut part = String::new();
            part.push(c);
            proof {
                assert(part@ =~= seq![c]);
                assert(rest.drop_first() =~= cluster@.subrange(
                    it.index() + 1,
                    cluster@.len() as int,
                ));
            }
            Self::push_replaced(
                out,
                Self::transform(&self.trie, &self.replacements, part.as_str()),
                part.as_str(),
            );
            proof {
                assert(text::utf8(out@) == before + replaced(t, rep, text::utf8(seq![c])));
                assert(before + (replaced(t, rep, text::utf8(seq![c])) + chars_replaced(
                    t,
                    rep,
                    rest.drop_first(),
                )) =~= text::utf8(out@) + chars_replaced(t, rep, rest.drop_first()));
            }
        }
        assert(cluster@.subrange(cluster@.len() as int, cluster@.len() as int) =~= Seq::empty());
        assert(want =~= text::utf8(out@));
    }

    /// Grapheme-by-grapheme transform of `region`, appended to `out`.
    fn normalize_graphemes(&self, region: &str, out: &mut String)
        requires
            self.wf(),
        ensures
            text::utf8(final(out)@) == text::utf8(old(out)@) + clusters_replaced(
                blob_trie(self.raw()),
                blob_replacements(self.raw()),
                grapheme_clusters(region@),
            ),
    {
        let ghost (t, rep) = (blob_trie(self.raw()), blob_replacements(self.raw()));
        let clusters = graphemes(region);
        let ghost gs = grapheme_clusters(region@);
        let ghost want = text::utf8(out@) + clusters_replaced(t, rep, gs);
        assert(gs.subrange(0, gs.len() as int) =~= gs);
        let mut i: usize = 0;
        while i < clusters.len()
            invariant
                self.wf(),
                t == blob_trie(self.raw()),
                rep == blob_replacements(self.raw()),
                i <= clusters.len(),
                gs == Seq::new(clusters@.len(), |i: int| clusters@[i]@),
                want == text::utf8(out@) + clusters_replaced(
                    t,
                    rep,
                    gs.subrange(i as int, gs.len() as int),
                ),
            decreases clusters.len() - i,
        {
            let ghost rest = gs.subrange(i as int, gs.len() as int);
            let ghost before = text::utf8(out@);
            proof {
                assert(rest[0] == clusters@[i as int]@);
                assert(rest.drop_first() =~= gs.subrange(i + 1, gs.len() as int));
            }
            let cluster = clusters[i];
            let short = cluster.as_bytes().len() < 6;
            let whole = if short {
                Self::transform(&self.trie, &self.replacements, cluster)
            } else {
                None
            };
            match whole {
                Some(s) => {
                    proof {
                        text::lemma_utf8_concat(out@, s@);
                    }
                    out.push_str(s);
                },
                None => self.normalize_chars(cluster, out),
            }
            proof {
                assert(text::utf8(out@) == before + cluster_replaced(t, rep, rest[0]));
                assert(before + (cluster_replaced(t, rep, rest[0]) + clusters_replaced(
                    t,
                    rep,
                    rest.drop_first(),
                )) =~= text::utf8(out@) + clusters_replaced(t, rep, rest.drop_first()));
            }
            i = i + 1;
        }
        assert(gs.subrange(gs.len() as int, gs.len() as int) =~= Seq::empty());
        assert(want =~= text::utf8(out@));
    }

    /// Apply the charsmap to `text`, appending the result to `out`.
    ///
    /// Per grapheme cluster: try the whole cluster if under 6 bytes, otherwise
    /// transform each char separately.
    pub fn normalize_into(&self, text: &str, out: &mut String)
        requires
            self.wf(),
        ensures
            text::utf8(final(out)@) == text::utf8(old(out)@) + self.normal_form(text::utf8(text@)),
    {
        let bytes = text.as_bytes();
        let len: usize = bytes.len();
        let ghost b = bytes@;
        let ghost (t, rep) = (blob_trie(self.raw()), blob_replacements(self.raw()));
        let ghost want = text::utf8(out@) + normalized(t, rep, b);
        proof {
            encode_utf8_valid_utf8(text@);
            util::lemma_boundary_ends(b);
        }
        let mut i: usize = 0;
        while i < len
            invariant
                self.wf(),
                t == blob_trie(self.raw()),
                rep == blob_replacements(self.raw()),
                b == text.spec_bytes(),
                bytes@ == b,
                len == b.len(),
                i <= len,
                valid_utf8(b),
                util::boundary(b, i as int),
                want == text::utf8(out@) + normalized_from(t, rep, b, i as int),
            decreases len - i,
        {
            let ghost before = text::utf8(out@);
            let ghost i0 = i as int;
            let x: u8 = bytes[i];
            if x < 0x80 && (i + 1 >= len || bytes[i + 1] < 0x80) {
                proof {
                    util::lemma_after(b, i as int);
                }
                if x == 0x0d && i + 1 < len && bytes[i + 1] == 0x0a {
                    let kept = "\r\n";
                    proof {
                        lemma_crlf();
                        reveal_strlit("\r\n");
                        assert(kept@ =~= seq!['\r', '\n']);
                        util::lemma_after(b, i + 1);
                    }
                    let r = match &self.crlf {
                        Some(s) => Some(s.as_str()),
                        None => None,
                    };
                    Self::push_replaced(out, r, kept);
                    i = i + 2;
                    proof {
                        let d = replaced(t, rep, seq![0x0du8, 0x0au8]);
                        assert(before + (d + normalized_from(t, rep, b, i as int))
                            =~= text::utf8(out@) + normalized_from(t, rep, b, i as int));
                    }
                } else {
                    let mut kept = String::new();
                    kept.push(x as char);
                    proof {
                        assert(kept@ =~= seq![x as char]);
                        text::lemma_utf8_ascii(x as char);
                        assert(is_replacement(
                            self.ascii@[x as int],
                            self.replacement_of(seq![(x as int) as u8]),
                        ));
                    }
                    let r = match &self.ascii[x as usize] {
                        Some(s) => Some(s.as_str()),
                        None => None,
                    };
                    Self::push_replaced(out, r, kept.as_str());
                    i = i + 1;
                    proof {
                        let d = replaced(t, rep, seq![x]);
                        assert(before + (d + normalized_from(t, rep, b, i as int))
                            =~= text::utf8(out@) + normalized_from(t, rep, b, i as int));
                    }
                }
            } else {
                // Extend until a sure boundary, then run full grapheme
                // segmentation over the stretch.
                let mut j: usize = i + 1;
                while j < len && !(bytes[j] < 0x80 && bytes[j - 1] < 0x80 && !(bytes[j - 1] == 0x0d
                    && bytes[j] == 0x0a))
                    invariant
                        bytes@ == b,
                        len == b.len(),
                        i < j <= len,
                        region_end(b, i + 1) == region_end(b, j as int),
                    decreases len - j,
                {
                    j = j + 1;
                }
                proof {
                    text::lemma_lead_is_boundary(b, j as int);
                }
                let region = substr(text, i, j);
                proof {
                    encode_utf8_decode_utf8(region@);
                    assert(region.spec_bytes() == b.subrange(i as int, j as int));
                }
                self.normalize_graphemes(region, out);
                i = j;
                proof {
                    let d = clusters_replaced(
                        t,
                        rep,
                        grapheme_clusters(decode_utf8(b.subrange(i0, j as int))),
                    );
                    assert(before + (d + normalized_from(t, rep, b, i as int)) =~= text::utf8(out@)
                        + normalized_from(t, rep, b, i as int));
                }
            }
        }
        assert(want =~= text::utf8(out@));
    }
}

/// The bytes of CR LF.
proof fn lemma_crlf()
    ensures
        text::utf8(seq!['\r', '\n']) == seq![0x0du8, 0x0au8],
{
    text::lemma_utf8_ascii('\r');
    text::lemma_utf8_ascii('\n');
    text::lemma_utf8_push(seq!['\r'], '\n');
    assert(seq!['\r'].push('\n') =~= seq!['\r', '\n']);
    assert(seq![0x0du8] + seq![0x0au8] =~= seq![0x0du8, 0x0au8]);
}

} // verus!
