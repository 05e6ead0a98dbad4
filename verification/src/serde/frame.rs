//! The frame of a file: its header and where its sections stand.
use crate::bytes;
use crate::bytes::{push_bytes, read_u32};
use crate::encoder;
use crate::encoder::EncoderType;
use crate::pretok;
use crate::pretok::PretokType;
use crate::serde::codec;
use crate::serde::codec::push_words;
use crate::serde::SerdeError;
use crate::types::TokenId;
use crate::text::same_bytes;
use vstd::prelude::*;
use vstd::slice::*;

verus! {

/// Current format version. Public so cache layers can key artifacts by it.
pub const VERSION: u32 = 13;

/// The oldest version that can be read.
pub const OLDEST_VERSION: u32 = 10;

/// The length of a header before version 13.
pub const HEADER_SIZE: usize = 88;

/// The length of a header from version 13 on: one section more.
pub const HEADER_SIZE_V13: usize = 96;

/// The number that stands for no pad token.
pub const NO_PAD: u32 = 0xFFFF_FFFF;

/// The bytes that a file starts with: "TOKI".
pub open spec fn magic() -> Seq<u8> {
    seq![0x54u8, 0x4fu8, 0x4bu8, 0x49u8]
}

/// What a bit does to the remainder of a CRC-32 checksum, which is kept with
/// its bits in reverse.
pub open spec fn crc_bit(c: u32) -> u32 {
    if c & 1 == 1 {
        (c >> 1) ^ 0xEDB8_8320
    } else {
        c >> 1
    }
}

/// What `n` bits do to it.
pub open spec fn crc_bits(c: u32, n: nat) -> u32
    decreases n,
{
    if n == 0 {
        c
    } else {
        crc_bit(crc_bits(c, (n - 1) as nat))
    }
}

/// The remainder of bytes.
pub open spec fn crc_of(d: Seq<u8>) -> u32
    decreases d.len(),
{
    if d.len() == 0 {
        0xFFFF_FFFF
    } else {
        crc_bits(crc_of(d.drop_last()) ^ (d.last() as u32), 8)
    }
}

/// The checksum of bytes: CRC-32 as IEEE 802.3 has it.
pub open spec fn checksum(d: Seq<u8>) -> u32 {
    crc_of(d) ^ 0xFFFF_FFFF
}

/// Different remainders stay different.
proof fn lemma_crc_bits(a: u32, b: u32, n: nat)
    requires
        a != b,
    ensures
        crc_bits(a, n) != crc_bits(b, n),
    decreases n,
{
    if n > 0 {
        lemma_crc_bits(a, b, (n - 1) as nat);
        let (x, y) = (crc_bits(a, (n - 1) as nat), crc_bits(b, (n - 1) as nat));
        assert(x != y ==> (if x & 1 == 1 {
            (x >> 1) ^ 0xEDB8_8320u32
        } else {
            x >> 1
        }) != (if y & 1 == 1 {
            (y >> 1) ^ 0xEDB8_8320u32
        } else {
            y >> 1
        })) by (bit_vector);
    }
}

/// Bytes that differ in one place have different remainders.
proof fn lemma_crc_of(a: Seq<u8>, b: Seq<u8>, i: int)
    requires
        a.len() == b.len(),
        0 <= i < a.len(),
        a[i] != b[i],
        forall|j: int| 0 <= j < a.len() && j != i ==> a[j] == b[j],
    ensures
        crc_of(a) != crc_of(b),
    decreases a.len(),
{
    let (x, y) = (crc_of(a.drop_last()), crc_of(b.drop_last()));
    let (p, q) = (a.last() as u32, b.last() as u32);
    if i == a.len() - 1 {
        assert(a.drop_last() =~= b.drop_last());
        assert(p != q ==> x ^ p != x ^ q) by (bit_vector);
        lemma_crc_bits(x ^ p, y ^ q, 8);
    } else {
        lemma_crc_of(a.drop_last(), b.drop_last(), i);
        assert(x != y ==> x ^ p != y ^ p) by (bit_vector);
        lemma_crc_bits(x ^ p, y ^ q, 8);
    }
}

/// A change of one byte changes the checksum.
pub proof fn law_checksum_finds_a_byte(a: Seq<u8>, b: Seq<u8>, i: int)
    requires
        a.len() == b.len(),
        0 <= i < a.len(),
        a[i] != b[i],
        forall|j: int| 0 <= j < a.len() && j != i ==> a[j] == b[j],
    ensures
        checksum(a) != checksum(b),
{
    lemma_crc_of(a, b, i);
    let (x, y) = (crc_of(a), crc_of(b));
    assert(x != y ==> x ^ 0xFFFF_FFFFu32 != y ^ 0xFFFF_FFFFu32) by (bit_vector);
}

/// Trusted: `crc32fast::hash` gives the CRC-32 checksum of bytes, as its
/// documentation says: that of IEEE 802.3.
#[verifier::external_body]
pub(crate) fn crc32(data: &[u8]) -> (r: u32)
    ensures
        r == checksum(data@),
{
    crc32fast::hash(data)
}

// ---- sections in a row ----

/// How long the first `n` sections are together.
pub open spec fn length_of(s: Seq<Seq<u8>>, n: int) -> int
    decreases n,
{
    if n <= 0 {
        0
    } else {
        length_of(s, n - 1) + s[n - 1].len()
    }
}

/// The first `n` sections, one behind the other.
pub open spec fn joined(s: Seq<Seq<u8>>, n: int) -> Seq<u8>
    decreases n,
{
    if n <= 0 {
        seq![]
    } else {
        joined(s, n - 1) + s[n - 1]
    }
}

/// Where a section stands among all of them.
proof fn lemma_joined(s: Seq<Seq<u8>>, k: int, n: int)
    requires
        0 <= k <= n <= s.len(),
    ensures
        0 <= length_of(s, k) <= length_of(s, n),
        joined(s, n).len() == length_of(s, n),
        k < n ==> length_of(s, k) + s[k].len() <= length_of(s, n) && joined(s, n).subrange(
            length_of(s, k),
            length_of(s, k) + s[k].len(),
        ) == s[k],
    decreases n,
{
    if n > 0 {
        if k < n {
            lemma_joined(s, k, n - 1);
            let (a, b) = (length_of(s, k), length_of(s, k) + s[k].len());
            if k < n - 1 {
                assert(joined(s, n).subrange(a, b) =~= joined(s, n - 1).subrange(a, b));
            } else {
                assert(joined(s, n).subrange(a, b) =~= s[k]);
            }
        } else {
            lemma_joined(s, n - 1, n - 1);
        }
    }
}

// ---- writing ----

/// The offset and the checksum of each section.
pub open spec fn section_table(s: Seq<Seq<u8>>) -> Seq<u32> {
    Seq::new(
        14,
        |i: int|
            if i % 2 == 0 {
                (HEADER_SIZE_V13 + length_of(s, i / 2)) as u32
            } else {
                checksum(s[i / 2])
            },
    )
}

/// A file: magic bytes, nine numbers, the table of its sections, its sections.
pub open spec fn file_bytes(meta: Seq<u32>, s: Seq<Seq<u8>>) -> Seq<u8> {
    magic() + codec::words_bytes(meta + section_table(s)) + joined(s, 7)
}

/// Write a file; `None` where it would be too long for its offsets.
pub fn write_file(meta: &[u32], s: &[Vec<u8>]) -> (r: Option<Vec<u8>>)
    requires
        meta@.len() == 9,
        s@.len() == 7,
    ensures
        match r {
            Some(d) => d@ == file_bytes(meta@, views(s@)) && d@.len() <= u32::MAX,
            None => file_bytes(meta@, views(s@)).len() > u32::MAX,
        },
{
    let ghost v = views(s@);
    let mut words: Vec<u32> = Vec::new();
    let mut body: Vec<u8> = Vec::new();
    let mut offset: u32 = HEADER_SIZE_V13 as u32;
    let mut k: usize = 0;
    while k < 7
        invariant
            k <= 7,
            s@.len() == 7,
            meta@.len() == 9,
            v == views(s@),
            offset == HEADER_SIZE_V13 + length_of(v, k as int),
            words@ == section_table(v).subrange(0, 2 * k),
            body@ == joined(v, k as int),
        decreases 7 - k,
    {
        let part = s[k].as_slice();
        assert(part@ == v[k as int]);
        let ghost before = words@;
        words.push(offset);
        words.push(crc32(part));
        proof {
            assert((2 * k) / 2 == k && (2 * k + 1) / 2 == k);
            assert(words@ =~= section_table(v).subrange(0, 2 * k + 2));
        }
        if part.len() > (u32::MAX - offset) as usize {
            proof {
                lemma_joined(v, k + 1, 7);
                lemma_file_len(meta@, v);
            }
            return None;
        }
        offset = offset + part.len() as u32;
        push_bytes(&mut body, part);
        k = k + 1;
    }
    assert(words@ =~= section_table(v));
    let mut out: Vec<u8> = Vec::new();
    out.push(0x54);
    out.push(0x4f);
    out.push(0x4b);
    out.push(0x49);
    assert(out@ =~= magic());
    push_words(&mut out, meta);
    push_words(&mut out, words.as_slice());
    push_bytes(&mut out, body.as_slice());
    proof {
        crate::serde::post::lemma_words_concat(meta@, section_table(v));
        assert(out@ =~= file_bytes(meta@, v));
        lemma_file_len(meta@, v);
    }
    Some(out)
}

/// The bytes of byte vectors.
pub open spec fn views(v: Seq<Vec<u8>>) -> Seq<Seq<u8>> {
    Seq::new(v.len(), |i: int| v[i]@)
}

/// How long a file is.
proof fn lemma_file_len(meta: Seq<u32>, s: Seq<Seq<u8>>)
    requires
        meta.len() == 9,
        s.len() == 7,
    ensures
        file_bytes(meta, s).len() == HEADER_SIZE_V13 + length_of(s, 7),
{
    codec::lemma_words_len(meta + section_table(s));
    lemma_joined(s, 7, 7);
}

/// A file is longer than each of its sections.
pub proof fn lemma_section_len(meta: Seq<u32>, s: Seq<Seq<u8>>, k: int)
    requires
        meta.len() == 9,
        s.len() == 7,
        0 <= k < 7,
    ensures
        s[k].len() < file_bytes(meta, s).len(),
{
    lemma_file_len(meta, s);
    lemma_joined(s, k, 7);
}

// ---- reading ----

/// The number in the `i`th place of a header.
pub open spec fn word(d: Seq<u8>, i: int) -> u32 {
    bytes::u32_at(d, 4 * i)
}

/// What is wrong with a header.
pub open spec fn header_error(d: Seq<u8>) -> Option<SerdeError> {
    if d.len() < HEADER_SIZE {
        Some(SerdeError::InvalidData("file too small"))
    } else if d.subrange(0, 4) != magic() {
        Some(SerdeError::InvalidMagic)
    } else if !(OLDEST_VERSION <= word(d, 1) <= VERSION) {
        Some(SerdeError::UnsupportedVersion(word(d, 1)))
    } else if word(d, 2) > 4 {
        Some(SerdeError::InvalidEncoderType(word(d, 2)))
    } else if word(d, 3) > 8 {
        Some(SerdeError::InvalidPretokenizer(word(d, 3)))
    } else if word(d, 4) > 12 {
        Some(SerdeError::InvalidNormalizer(word(d, 4)))
    } else if word(d, 1) >= 13 && d.len() < HEADER_SIZE_V13 {
        Some(SerdeError::InvalidData("truncated v13 header"))
    } else {
        None
    }
}

/// Where the `k`th section starts; the last one ends with the file. A
/// section that the version lacks is empty, at the end.
pub open spec fn offset(d: Seq<u8>, k: int) -> int {
    if k >= 7 || (k == 6 && word(d, 1) < 13) || (k == 5 && word(d, 1) < 12) {
        d.len() as int
    } else {
        word(d, 10 + 2 * k) as int
    }
}

/// The `k`th section.
pub open spec fn section(d: Seq<u8>, k: int) -> Seq<u8> {
    d.subrange(offset(d, k), offset(d, k + 1))
}

/// The checksum of the `k`th section is wrong.
pub open spec fn corrupt(d: Seq<u8>, k: int) -> bool {
    &&& k < 5 || (k == 5 && word(d, 1) >= 12) || (k == 6 && word(d, 1) >= 13)
    &&& checksum(section(d, k)) != word(d, 11 + 2 * k)
}

/// The error of a section that lies outside the file.
pub open spec fn bounds_error(k: int) -> SerdeError {
    if k == 4 {
        SerdeError::InvalidData("charsmap section out of bounds")
    } else if k == 5 {
        SerdeError::InvalidData("added-tokens section out of bounds")
    } else {
        SerdeError::InvalidData("section out of bounds")
    }
}

/// The error of a section with a wrong checksum.
pub open spec fn checksum_error(k: int) -> SerdeError {
    if k == 0 {
        SerdeError::ChecksumMismatch { section: "token_data" }
    } else if k == 1 {
        SerdeError::ChecksumMismatch { section: "merge_data" }
    } else if k == 2 {
        SerdeError::ChecksumMismatch { section: "daac_data" }
    } else if k == 3 {
        SerdeError::ChecksumMismatch { section: "prefix_data" }
    } else if k == 4 {
        SerdeError::ChecksumMismatch { section: "pp_data" }
    } else if k == 5 {
        SerdeError::ChecksumMismatch { section: "charsmap_data" }
    } else {
        SerdeError::ChecksumMismatch { section: "added_tokens" }
    }
}

/// The first thing that is wrong with the sections from the `k`th on.
pub open spec fn sections_error(d: Seq<u8>, k: int) -> Option<SerdeError>
    decreases 7 - k,
{
    if k < 0 || k >= 7 {
        None
    } else if offset(d, k) > offset(d, k + 1) || offset(d, k + 1) > d.len() {
        Some(bounds_error(k))
    } else if corrupt(d, k) {
        Some(checksum_error(k))
    } else {
        sections_error(d, k + 1)
    }
}

/// How long the header of a file is.
pub open spec fn header_len(d: Seq<u8>) -> int {
    if word(d, 1) >= 13 {
        HEADER_SIZE_V13 as int
    } else {
        HEADER_SIZE as int
    }
}

/// A section has a checksum.
pub open spec fn has_checksum(d: Seq<u8>, k: int) -> bool {
    0 <= k < 5 || (k == 5 && word(d, 1) >= 12) || (k == 6 && word(d, 1) >= 13)
}

/// A file that is in order but for one byte of a section is refused, and the
/// error names the section.
pub proof fn law_damage_is_found(d: Seq<u8>, e: Seq<u8>, k: int, i: int)
    requires
        header_error(d) is None,
        sections_error(d, 0) is None,
        has_checksum(d, k),
        header_len(d) <= i,
        offset(d, k) <= i < offset(d, k + 1),
        e.len() == d.len(),
        e[i] != d[i],
        forall|j: int| 0 <= j < d.len() && j != i ==> e[j] == d[j],
    ensures
        header_error(e) is None,
        sections_error(e, 0) == Some(checksum_error(k)),
{
    assert forall|w: int| 0 <= w && 4 * w + 4 <= header_len(d) implies #[trigger] word(e, w) == word(
        d,
        w,
    ) by {
        assert(e.subrange(4 * w, 4 * w + 4) =~= d.subrange(4 * w, 4 * w + 4));
    }
    assert(e.subrange(0, 4) =~= d.subrange(0, 4));
    assert(word(e, 1) == word(d, 1));
    assert(word(e, 2) == word(d, 2) && word(e, 3) == word(d, 3) && word(e, 4) == word(d, 4));
    lemma_damage(d, e, k, i, 0);
}

/// The section in which a byte lies.
proof fn lemma_section_of(d: Seq<u8>, i: int, j: int) -> (k: int)
    requires
        0 <= j < 7,
        sections_error(d, j) is None,
        offset(d, j) <= i < d.len(),
    ensures
        j <= k < 7,
        offset(d, k) <= i < offset(d, k + 1),
    decreases 7 - j,
{
    if i < offset(d, j + 1) {
        j
    } else {
        lemma_section_of(d, i, j + 1)
    }
}

/// A file of the current version that is in order but for one byte behind its
/// header is refused, and the error names a section.
pub proof fn law_damaged_file_is_refused(d: Seq<u8>, e: Seq<u8>, i: int) -> (k: int)
    requires
        header_error(d) is None,
        sections_error(d, 0) is None,
        word(d, 1) == VERSION,
        offset(d, 0) == HEADER_SIZE_V13,
        HEADER_SIZE_V13 <= i < d.len(),
        e.len() == d.len(),
        e[i] != d[i],
        forall|j: int| 0 <= j < d.len() && j != i ==> e[j] == d[j],
    ensures
        0 <= k < 7,
        offset(d, k) <= i < offset(d, k + 1),
        header_error(e) is None,
        sections_error(e, 0) == Some(checksum_error(k)),
{
    let k = lemma_section_of(d, i, 0);
    law_damage_is_found(d, e, k, i);
    k
}

proof fn lemma_damage(d: Seq<u8>, e: Seq<u8>, k: int, i: int, j: int)
    requires
        0 <= j <= k,
        header_error(d) is None,
        sections_error(d, j) is None,
        has_checksum(d, k),
        header_len(d) <= i,
        offset(d, k) <= i < offset(d, k + 1),
        e.len() == d.len(),
        e[i] != d[i],
        forall|x: int| 0 <= x < d.len() && x != i ==> e[x] == d[x],
        forall|w: int|
            0 <= w && 4 * w + 4 <= header_len(d) ==> #[trigger] word(e, w) == word(d, w),
    ensures
        sections_error(e, j) == Some(checksum_error(k)),
    decreases k - j,
{
    assert(word(e, 1) == word(d, 1));
    assert(offset(e, j) == offset(d, j) && offset(e, j + 1) == offset(d, j + 1));
    let (a, b) = (section(d, j), section(e, j));
    if j == k {
        law_checksum_finds_a_byte(b, a, i - offset(d, k));
        assert(word(e, 11 + 2 * k) == word(d, 11 + 2 * k));
    } else {
        lemma_offsets_grow(d, j + 1, k);
        assert(b =~= a);
        assert(has_checksum(d, j) ==> word(e, 11 + 2 * j) == word(d, 11 + 2 * j));
        lemma_damage(d, e, k, i, j + 1);
    }
}

/// Sections that are in order follow each other.
proof fn lemma_offsets_grow(d: Seq<u8>, j: int, k: int)
    requires
        0 <= j <= k <= 7,
        sections_error(d, j) is None,
    ensures
        offset(d, j) <= offset(d, k),
    decreases k - j,
{
    if j < k {
        lemma_offsets_grow(d, j + 1, k);
    }
}

/// The pad token of a file.
pub open spec fn pad_in(d: Seq<u8>) -> Option<TokenId> {
    if word(d, 1) >= 11 && word(d, 9) != NO_PAD {
        Some(word(d, 9))
    } else {
        None
    }
}

/// What a header says.
pub struct Header {
    pub version: u32,
    pub encoder: EncoderType,
    pub pretokenizer: PretokType,
    pub normalizer: u32,
    pub post_processor: u32,
    pub vocab_size: u32,
    pub num_base_tokens: u32,
    pub pad_token_id: Option<TokenId>,
}

/// The header is that of the file.
pub open spec fn is_header(d: Seq<u8>, h: Header) -> bool {
    &&& h.version == word(d, 1)
    &&& encoder::encoder_id(h.encoder) == word(d, 2)
    &&& pretok::pretok_id(h.pretokenizer) == word(d, 3)
    &&& h.normalizer == word(d, 4)
    &&& h.post_processor == word(d, 5)
    &&& h.vocab_size == word(d, 6)
    &&& h.num_base_tokens == word(d, 8)
    &&& h.pad_token_id == pad_in(d)
}

/// Read a header.
pub fn read_header(data: &[u8]) -> (r: Result<Header, SerdeError>)
    ensures
        match r {
            Ok(h) => header_error(data@) is None && is_header(data@, h),
            Err(e) => header_error(data@) == Some(e),
        },
{
    if data.len() < HEADER_SIZE {
        return Err(SerdeError::InvalidData("file too small"));
    }
    let m: [u8; 4] = [0x54, 0x4f, 0x4b, 0x49];
    assert(m@ =~= magic());
    if !same_bytes(slice_subrange(data, 0, 4), m.as_slice()) {
        return Err(SerdeError::InvalidMagic);
    }
    let version: u32 = read_u32(data, 4);
    if version < OLDEST_VERSION || version > VERSION {
        return Err(SerdeError::UnsupportedVersion(version));
    }
    let e: u32 = read_u32(data, 8);
    let encoder = match EncoderType::from_u32(e) {
        Some(t) => t,
        None => return Err(SerdeError::InvalidEncoderType(e)),
    };
    let p: u32 = read_u32(data, 12);
    let pretokenizer = match PretokType::from_u32(p) {
        Some(t) => t,
        None => return Err(SerdeError::InvalidPretokenizer(p)),
    };
    let normalizer: u32 = read_u32(data, 16);
    if normalizer > 12 {
        return Err(SerdeError::InvalidNormalizer(normalizer));
    }
    let post_processor: u32 = read_u32(data, 20);
    let vocab_size: u32 = read_u32(data, 24);
    let num_base_tokens: u32 = read_u32(data, 32);
    let pad: u32 = read_u32(data, 36);
    let pad_token_id = if version >= 11 && pad != NO_PAD {
        Some(pad)
    } else {
        None
    };
    if version >= 13 && data.len() < HEADER_SIZE_V13 {
        return Err(SerdeError::InvalidData("truncated v13 header"));
    }
    Ok(
        Header {
            version,
            encoder,
            pretokenizer,
            normalizer,
            post_processor,
            vocab_size,
            num_base_tokens,
            pad_token_id,
        },
    )
}

/// Where the `k`th section starts.
fn read_offset(data: &[u8], version: u32, k: usize) -> (r: usize)
    requires
        header_error(data@) is None,
        version == word(data@, 1),
        k <= 7,
    ensures
        r == offset(data@, k as int),
{
    if k >= 7 || (k == 6 && version < 13) || (k == 5 && version < 12) {
        data.len()
    } else {
        read_u32(data, 40 + 8 * k) as usize
    }
}

/// The sections of a file.
pub fn read_sections<'a>(data: &'a [u8], version: u32) -> (r: Result<Vec<&'a [u8]>, SerdeError>)
    requires
        header_error(data@) is None,
        version == word(data@, 1),
    ensures
        match r {
            Ok(s) => {
                &&& sections_error(data@, 0) is None
                &&& s@.len() == 7
                &&& forall|k: int| 0 <= k < 7 ==> (#[trigger] s@[k])@ == section(data@, k)
            },
            Err(e) => sections_error(data@, 0) == Some(e),
        },
{
    let ghost d = data@;
    let mut out: Vec<&'a [u8]> = Vec::new();
    let mut k: usize = 0;
    while k < 7
        invariant
            d == data@,
            header_error(d) is None,
            version == word(d, 1),
            k <= 7,
            out@.len() == k,
            sections_error(d, 0) == sections_error(d, k as int),
            forall|j: int| 0 <= j < k ==> (#[trigger] out@[j])@ == section(d, j),
        decreases 7 - k,
    {
        let start: usize = read_offset(data, version, k);
        let end: usize = read_offset(data, version, k + 1);
        if start > end || end > data.len() {
            return Err(
                if k == 4 {
                    SerdeError::InvalidData("charsmap section out of bounds")
                } else if k == 5 {
                    SerdeError::InvalidData("added-tokens section out of bounds")
                } else {
                    SerdeError::InvalidData("section out of bounds")
                },
            );
        }
        let part = slice_subrange(data, start, end);
        let has_checksum = k < 5 || (k == 5 && version >= 12) || (k == 6 && version >= 13);
        if has_checksum && crc32(part) != read_u32(data, 44 + 8 * k) {
            let section = if k == 0 {
                "token_data"
            } else if k == 1 {
                "merge_data"
            } else if k == 2 {
                "daac_data"
            } else if k == 3 {
                "prefix_data"
            } else if k == 4 {
                "pp_data"
            } else if k == 5 {
                "charsmap_data"
            } else {
                "added_tokens"
            };
            return Err(SerdeError::ChecksumMismatch { section });
        }
        out.push(part);
        k = k + 1;
    }
    Ok(out)
}

/// A file that was written has the header and the sections that it was
/// written with.
pub proof fn law_file_is_read_back(meta: Seq<u32>, s: Seq<Seq<u8>>)
    requires
        meta.len() == 9,
        s.len() == 7,
        file_bytes(meta, s).len() <= u32::MAX,
        meta[0] == VERSION,
        meta[1] <= 4,
        meta[2] <= 8,
        meta[3] <= 12,
    ensures
        header_error(file_bytes(meta, s)) is None,
        forall|i: int| 1 <= i <= 9 ==> #[trigger] word(file_bytes(meta, s), i) == meta[i - 1],
        sections_error(file_bytes(meta, s), 0) is None,
        forall|k: int| 0 <= k < 7 ==> #[trigger] section(file_bytes(meta, s), k) == s[k],
        offset(file_bytes(meta, s), 0) == HEADER_SIZE_V13,
{
    let d = file_bytes(meta, s);
    let w = meta + section_table(s);
    lemma_file_len(meta, s);
    codec::lemma_words_len(w);
    codec::law_words_are_read_back(magic(), w, joined(s, 7));
    let all = codec::words_at(d, 4, 23);
    assert(w.len() == 23);
    assert forall|i: int| 1 <= i <= 23 implies #[trigger] word(d, i) == w[i - 1] by {
        assert(all[i - 1] == w[i - 1]);
    }
    assert(d.subrange(0, 4) =~= magic());
    assert forall|k: int| 0 <= k <= 7 implies #[trigger] offset(d, k) == HEADER_SIZE_V13
        + length_of(s, k) by {
        lemma_joined(s, k, 7);
        if k < 7 {
            assert(word(d, 10 + 2 * k) == w[9 + 2 * k]);
            assert((2 * k) / 2 == k);
        }
    }
    assert forall|k: int| 0 <= k < 7 implies #[trigger] section(d, k) == s[k] by {
        lemma_joined(s, k, 7);
        lemma_joined(s, k + 1, 7);
        let (a, b) = (length_of(s, k), length_of(s, k + 1));
        assert(offset(d, k) == HEADER_SIZE_V13 + a);
        assert(offset(d, k + 1) == HEADER_SIZE_V13 + b);
        assert(d.subrange(HEADER_SIZE_V13 + a, HEADER_SIZE_V13 + b) =~= joined(s, 7).subrange(
            a,
            b,
        ));
    }
    lemma_sections_sound(meta, s, 0);
}

/// No section of a written file is wrong.
proof fn lemma_sections_sound(meta: Seq<u32>, s: Seq<Seq<u8>>, k: int)
    requires
        meta.len() == 9,
        s.len() == 7,
        0 <= k <= 7,
        file_bytes(meta, s).len() <= u32::MAX,
        forall|i: int|
            1 <= i <= 23 ==> #[trigger] word(file_bytes(meta, s), i) == (meta + section_table(
                s,
            ))[i - 1],
        forall|k: int|
            0 <= k <= 7 ==> #[trigger] offset(file_bytes(meta, s), k) == HEADER_SIZE_V13
                + length_of(s, k),
        forall|k: int| 0 <= k < 7 ==> #[trigger] section(file_bytes(meta, s), k) == s[k],
    ensures
        sections_error(file_bytes(meta, s), k) is None,
    decreases 7 - k,
{
    let d = file_bytes(meta, s);
    if k < 7 {
        lemma_file_len(meta, s);
        lemma_joined(s, k, k + 1);
        lemma_joined(s, k + 1, 7);
        assert(offset(d, k) == HEADER_SIZE_V13 + length_of(s, k));
        assert(offset(d, k + 1) == HEADER_SIZE_V13 + length_of(s, k + 1));
        assert(word(d, 11 + 2 * k) == (meta + section_table(s))[10 + 2 * k]);
        assert((2 * k + 1) / 2 == k && (2 * k + 1) % 2 == 1);
        assert(section(d, k) == s[k]);
        lemma_sections_sound(meta, s, k + 1);
    }
}

} // verus!
