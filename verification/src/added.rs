//! Added tokens: texts that are tokens of their own, found before anything
//! else is done to a text.
use crate::automaton;
use crate::bytes::to_vec;
use crate::pretokie::rules;
use crate::pretokie::util;
use crate::pretokie::util::decode_utf8;
use crate::text;
use crate::types::TokenId;
use vstd::prelude::*;
use vstd::string::*;
use vstd::utf8::*;

verus! {

/// One added token with its matching flags.
///
/// - `lstrip`/`rstrip`: the match extends over adjacent whitespace, which is
///   consumed.
/// - `normalized`: the token is matched after normalization, against the
///   normalized pattern. Other tokens are matched on the raw input first.
/// - `single_word`: the match is dropped when adjacent to a word character.
#[derive(Debug, PartialEq, Eq)]
pub struct AddedTokenSpec {
    pub id: TokenId,
    pub bytes: Vec<u8>,
    pub special: bool,
    pub lstrip: bool,
    pub rstrip: bool,
    pub normalized: bool,
    pub single_word: bool,
}

/// What an added token holds.
#[verifier::ext_equal]
pub struct AddedView {
    pub id: TokenId,
    pub bytes: Seq<u8>,
    pub special: bool,
    pub lstrip: bool,
    pub rstrip: bool,
    pub normalized: bool,
    pub single_word: bool,
}

/// What added tokens hold.
pub open spec fn models(v: Seq<AddedTokenSpec>) -> Seq<AddedView> {
    Seq::new(v.len(), |i: int| v[i].model())
}

impl AddedTokenSpec {
    /// What the added token holds.
    pub open spec fn model(self) -> AddedView {
        AddedView {
            id: self.id,
            bytes: self.bytes@,
            special: self.special,
            lstrip: self.lstrip,
            rstrip: self.rstrip,
            normalized: self.normalized,
            single_word: self.single_word,
        }
    }

    /// A plain added token with all flags off.
    pub fn plain(id: TokenId, bytes: Vec<u8>) -> (r: Self)
        ensures
            r.id == id,
            r.bytes == bytes,
            !r.special && !r.lstrip && !r.rstrip && !r.normalized && !r.single_word,
    {
        AddedTokenSpec {
            id,
            bytes,
            special: false,
            lstrip: false,
            rstrip: false,
            normalized: false,
            single_word: false,
        }
    }

    /// A copy of the added token.
    pub fn copy(&self) -> (r: Self)
        ensures
            r.model() == self.model(),
    {
        AddedTokenSpec {
            id: self.id,
            bytes: to_vec(self.bytes.as_slice()),
            special: self.special,
            lstrip: self.lstrip,
            rstrip: self.rstrip,
            normalized: self.normalized,
            single_word: self.single_word,
        }
    }
}

impl Clone for AddedTokenSpec {
    fn clone(&self) -> (r: Self)
        ensures
            r.model() == self.model(),
    {
        self.copy()
    }
}

/// Copies of added tokens.
pub fn copy_all(v: &[AddedTokenSpec]) -> (r: Vec<AddedTokenSpec>)
    ensures
        models(r@) == models(v@),
{
    let mut out: Vec<AddedTokenSpec> = Vec::new();
    let mut i: usize = 0;
    while i < v.len()
        invariant
            i <= v.len(),
            out@.len() == i,
            forall|j: int| 0 <= j < i ==> (#[trigger] out@[j]).model() == v@[j].model(),
        decreases v.len() - i,
    {
        out.push(v[i].copy());
        i = i + 1;
    }
    assert(models(out@) =~= models(v@));
    out
}

// ---- where added tokens stand in a text ----

/// A word character: a letter, a numeric or an underscore.
pub open spec fn word_char(c: char) -> bool {
    util::char_is_alphabetic(c) || util::char_is_numeric(c) || c == '_'
}

/// Is it a letter, a numeric or an underscore?
fn is_word_char(c: char) -> (r: bool)
    ensures
        r == word_char(c),
{
    c.is_alphabetic() || c.is_numeric() || c == '_'
}

/// No word character stands directly before `s` or directly behind `e`.
pub open spec fn stands_alone(b: Seq<u8>, s: int, e: int) -> bool {
    &&& s == 0 || !word_char(util::char_at(b, rules::last_start(b, 0, s)))
    &&& e == b.len() || !word_char(util::char_at(b, e))
}

/// The start of the whitespace that ends at `s`.
pub open spec fn blank_start(b: Seq<u8>, s: int) -> int
    decreases s,
{
    if s <= 0 {
        s
    } else {
        let l = rules::last_start(b, 0, s);
        if 0 <= l < s && util::char_is_whitespace(util::char_at(b, l)) {
            blank_start(b, l)
        } else {
            s
        }
    }
}

/// The end of the whitespace that starts at `e`.
pub open spec fn blank_end(b: Seq<u8>, e: int) -> int
    decreases b.len() - e,
{
    if 0 <= e < b.len() && util::after(b, e) <= b.len() && util::char_is_whitespace(
        util::char_at(b, e),
    ) {
        blank_end(b, util::after(b, e))
    } else {
        e
    }
}

/// A part of a text: an added token, by its place in the list, or text.
pub type Part = (Option<int>, int, int);

/// What a match of an added token at `s..e` covers, behind what the part
/// before it has taken; nothing where it does not count.
pub open spec fn match_span(b: Seq<u8>, spec: AddedView, pos: int, s: int, e: int) -> Option<
    (int, int),
> {
    if !util::boundary(b, s) || !util::boundary(b, e) || (spec.single_word && !stands_alone(
        b,
        s,
        e,
    )) {
        None
    } else {
        let w = blank_start(b, s);
        Some(
            (
                if spec.lstrip {
                    if w > pos {
                        w
                    } else {
                        pos
                    }
                } else {
                    s
                },
                if spec.rstrip {
                    blank_end(b, e)
                } else {
                    e
                },
            ),
        )
    }
}

/// The part of a text that a match takes; none where its token is unknown.
pub open spec fn taken_span(
    b: Seq<u8>,
    specs: Seq<AddedView>,
    pos: int,
    m: (u32, int, int),
) -> Option<(int, int)> {
    if m.0 < specs.len() {
        match_span(b, specs[m.0 as int], pos, m.1, m.2)
    } else {
        None
    }
}

/// The parts of a text from `pos` on, with the matches from `i` on.
pub open spec fn parts_from(
    b: Seq<u8>,
    specs: Seq<AddedView>,
    matches: Seq<(u32, int, int)>,
    i: int,
    pos: int,
) -> Seq<Part>
    decreases matches.len() - i,
{
    if i < 0 || i >= matches.len() {
        if pos < b.len() {
            seq![(None, pos, b.len() as int)]
        } else {
            seq![]
        }
    } else {
        let m = matches[i];
        match taken_span(b, specs, pos, m) {
            None => parts_from(b, specs, matches, i + 1, pos),
            Some((s, e)) => {
                let before: Seq<Part> = if pos < s {
                    seq![(None, pos, s)]
                } else {
                    seq![]
                };
                before + seq![(Some(m.0 as int), s, e)] + parts_from(b, specs, matches, i + 1, e)
            },
        }
    }
}

/// The parts as exact numbers.
pub open spec fn part_views(v: Seq<(Option<usize>, usize, usize)>) -> Seq<Part> {
    Seq::new(
        v.len(),
        |i: int|
            (
                match v[i].0 {
                    Some(k) => Some(k as int),
                    None => None,
                },
                v[i].1 as int,
                v[i].2 as int,
            ),
    )
}

/// The matches as exact numbers.
pub open spec fn match_views(v: Seq<(u32, usize, usize)>) -> Seq<(u32, int, int)> {
    v.map_values(|x: (u32, usize, usize)| (x.0, x.1 as int, x.2 as int))
}

/// The matches lie in a text of `len` bytes, and name one of `n` tokens.
pub open spec fn matches_in_bounds(m: Seq<(u32, usize, usize)>, len: int, n: int) -> bool {
    forall|i: int| 0 <= i < m.len() ==> (#[trigger] m[i]).0 < n && m[i].1 <= m[i].2 <= len
}

/// Is `i` a boundary of the text?
fn is_boundary(text: &str, i: usize) -> (r: bool)
    requires
        i <= text.spec_bytes().len(),
    ensures
        r == util::boundary(text.spec_bytes(), i as int),
{
    let b = text.as_bytes();
    let n: usize = b.len();
    proof {
        encode_utf8_valid_utf8(text@);
        util::lemma_boundary_ends(b@);
    }
    if i == n {
        return true;
    }
    let x: u8 = b[i];
    let lead = x & 0xC0 != 0x80;
    proof {
        assert(is_continuation_byte(x) == (x & 0xC0 == 0x80)) by {
            assert((0x80 <= x <= 0xbf) == (x & 0xC0 == 0x80)) by (bit_vector);
        }
        if lead {
            text::lemma_lead_is_boundary(b@, i as int);
        } else if util::boundary(b@, i as int) {
            util::lemma_after(b@, i as int);
        }
    }
    lead
}

/// The start of the character that ends at the boundary `e`.
fn char_before(bytes: &[u8], e: usize) -> (l: usize)
    requires
        valid_utf8(bytes@),
        0 < e <= bytes@.len(),
        util::boundary(bytes@, e as int),
    ensures
        l < e,
        l as int == rules::last_start(bytes@, 0, e as int),
        util::boundary(bytes@, l as int),
{
    proof {
        util::lemma_boundary_ends(bytes@);
        rules::lemma_last_start_boundary(bytes@, 0, 0, e as int);
    }
    let mut l: usize = e - 1;
    while l > 0 && bytes[l] & 0xC0 == 0x80
        invariant
            l < e <= bytes@.len(),
            rules::last_start(bytes@, 0, e as int) == rules::last_start(bytes@, 0, l + 1),
        decreases l,
    {
        let x: u8 = bytes[l];
        assert(is_continuation_byte(x)) by {
            assert(x & 0xC0 == 0x80 ==> 0x80 <= x <= 0xbf) by (bit_vector);
        }
        l = l - 1;
    }
    if l > 0 {
        let x: u8 = bytes[l];
        assert(!is_continuation_byte(x)) by {
            assert(x & 0xC0 != 0x80 ==> !(0x80 <= x <= 0xbf)) by (bit_vector);
        }
    }
    l
}

/// Where whitespace starts and ends lies at boundaries.
proof fn lemma_blank(b: Seq<u8>, s: int, e: int)
    requires
        valid_utf8(b),
        util::boundary(b, s),
        util::boundary(b, e),
    ensures
        0 <= blank_start(b, s) <= s,
        util::boundary(b, blank_start(b, s)),
        e <= blank_end(b, e) <= b.len(),
        util::boundary(b, blank_end(b, e)),
    decreases s + b.len() - e,
{
    util::lemma_boundary_ends(b);
    if s > 0 {
        rules::lemma_last_start_boundary(b, 0, 0, s);
        let l = rules::last_start(b, 0, s);
        if util::char_is_whitespace(util::char_at(b, l)) {
            lemma_blank(b, l, e);
        }
    }
    if e < b.len() {
        util::lemma_after(b, e);
        if util::char_is_whitespace(util::char_at(b, e)) {
            lemma_blank(b, s, util::after(b, e));
        }
    }
}

/// The start of the whitespace that ends at the boundary `s`.
fn skip_back(bytes: &[u8], s: usize) -> (r: usize)
    requires
        valid_utf8(bytes@),
        util::boundary(bytes@, s as int),
    ensures
        r as int == blank_start(bytes@, s as int),
{
    let mut r: usize = s;
    while r > 0
        invariant
            valid_utf8(bytes@),
            util::boundary(bytes@, r as int),
            r <= bytes@.len(),
            blank_start(bytes@, s as int) == blank_start(bytes@, r as int),
        ensures
            r as int == blank_start(bytes@, s as int),
        decreases r,
    {
        let l: usize = char_before(bytes, r);
        let (c, _) = decode_utf8(bytes, l);
        if !c.is_whitespace() {
            break;
        }
        r = l;
    }
    r
}

/// The end of the whitespace that starts at the boundary `e`.
fn skip_on(bytes: &[u8], e: usize) -> (r: usize)
    requires
        util::boundary(bytes@, e as int),
    ensures
        r as int == blank_end(bytes@, e as int),
{
    let mut r: usize = e;
    while r < bytes.len()
        invariant
            util::boundary(bytes@, r as int),
            r <= bytes@.len(),
            blank_end(bytes@, e as int) == blank_end(bytes@, r as int),
        ensures
            r as int == blank_end(bytes@, e as int),
        decreases bytes@.len() - r,
    {
        let (c, n) = decode_utf8(bytes, r);
        if !c.is_whitespace() {
            break;
        }
        r = r + n;
    }
    r
}

/// What a match of an added token covers, if it counts.
fn covered(text: &str, spec: &AddedTokenSpec, pos: usize, s: usize, e: usize) -> (r: Option<
    (usize, usize),
>)
    requires
        s <= e <= text.spec_bytes().len(),
        util::boundary(text.spec_bytes(), pos as int),
    ensures
        match r {
            Some((x, y)) => match_span(
                text.spec_bytes(),
                spec.model(),
                pos as int,
                s as int,
                e as int,
            ) == Some((x as int, y as int)) && util::boundary(text.spec_bytes(), x as int)
                && util::boundary(text.spec_bytes(), y as int),
            None => match_span(
                text.spec_bytes(),
                spec.model(),
                pos as int,
                s as int,
                e as int,
            ) is None,
        },
{
    let b = text.as_bytes();
    proof {
        encode_utf8_valid_utf8(text@);
    }
    if !is_boundary(text, s) || !is_boundary(text, e) {
        return None;
    }
    proof {
        lemma_blank(b@, s as int, e as int);
    }
    if spec.single_word {
        if s > 0 {
            let l: usize = char_before(b, s);
            let (c, _) = decode_utf8(b, l);
            if is_word_char(c) {
                return None;
            }
        }
        if e < b.len() {
            let (c, _) = decode_utf8(b, e);
            if is_word_char(c) {
                return None;
            }
        }
    }
    let mut x: usize = s;
    let mut y: usize = e;
    if spec.lstrip {
        let w: usize = skip_back(b, s);
        x = if w > pos {
            w
        } else {
            pos
        };
    }
    if spec.rstrip {
        y = skip_on(b, e);
    }
    Some((x, y))
}

/// The parts between which matches of added tokens cut a text, honoring the
/// tokens' flags.
pub fn parts_of(
    text: &str,
    matches: &[(u32, usize, usize)],
    specs: &[AddedTokenSpec],
) -> (r: Vec<(Option<usize>, usize, usize)>)
    requires
        matches_in_bounds(matches@, text.spec_bytes().len() as int, specs@.len() as int),
    ensures
        part_views(r@) == parts_from(
            text.spec_bytes(),
            models(specs@),
            match_views(matches@),
            0,
            0,
        ),
        parts_ok(text.spec_bytes(), part_views(r@), specs@.len() as int),
        no_gaps(text.spec_bytes(), part_views(r@), 0),
        apart(text.spec_bytes(), match_views(matches@)) ==> consecutive(
            text.spec_bytes(),
            part_views(r@),
            0,
        ),
{
    let ghost b = text.spec_bytes();
    let n: usize = text.as_bytes().len();
    let ghost ms = match_views(matches@);
    let ghost sp = models(specs@);
    proof {
        encode_utf8_valid_utf8(text@);
        util::lemma_boundary_ends(b);
        assert forall|i: int| 0 <= i < ms.len() implies (#[trigger] ms[i]).0 < sp.len() && 0
            <= ms[i].1 <= ms[i].2 <= b.len() by {
            assert(ms[i] == (matches@[i].0, matches@[i].1 as int, matches@[i].2 as int));
        }
        law_parts_cover(b, sp, ms);
        if apart(b, ms) {
            law_parts_follow(b, sp, ms);
        }
    }
    let mut out: Vec<(Option<usize>, usize, usize)> = Vec::new();
    let mut pos: usize = 0;
    let mut i: usize = 0;
    assert(part_views(out@) + parts_from(b, sp, ms, 0, 0) =~= parts_from(b, sp, ms, 0, 0));
    while i < matches.len()
        invariant
            b == text.spec_bytes(),
            n == b.len(),
            valid_utf8(b),
            util::boundary(b, n as int),
            ms == match_views(matches@),
            sp == models(specs@),
            i <= matches.len(),
            util::boundary(b, pos as int),
            matches_in_bounds(matches@, b.len() as int, specs@.len() as int),
            part_views(out@) + parts_from(b, sp, ms, i as int, pos as int) == parts_from(
                b,
                sp,
                ms,
                0,
                0,
            ),
            parts_ok(b, part_views(out@), specs@.len() as int),
        decreases matches.len() - i,
    {
        let (id, s, e) = matches[i];
        assert(ms[i as int] == (id, s as int, e as int));
        let k: usize = id as usize;
        let ghost before = part_views(out@);
        match covered(text, &specs[k], pos, s, e) {
            Some((x, y)) => {
                if pos < x {
                    out.push((None, pos, x));
                }
                out.push((Some(k), x, y));
                proof {
                    assert(sp[k as int] == specs@[k as int].model());
                    lemma_match_step(
                        b,
                        sp,
                        ms,
                        i as int,
                        pos as int,
                        before,
                        part_views(out@),
                        x as int,
                        y as int,
                    );
                }
                pos = y;
            },
            None => {},
        }
        i = i + 1;
    }
    if pos < n {
        let ghost before = part_views(out@);
        out.push((None, pos, n));
        proof {
            let all = part_views(out@);
            assert(all =~= before.push((None, pos as int, n as int)));
            assert(all =~= parts_from(b, sp, ms, 0, 0));
            assert forall|j: int| 0 <= j < all.len() implies part_ok(
                b,
                #[trigger] all[j],
                specs@.len() as int,
            ) by {
                if j < before.len() {
                    assert(all[j] == before[j]);
                }
            }
        }
    } else {
        assert(part_views(out@) =~= parts_from(b, sp, ms, 0, 0));
    }
    out
}

/// The ends of a part are boundaries of the text, its token is in the list,
/// and text is not empty.
pub open spec fn part_ok(b: Seq<u8>, p: Part, n: int) -> bool {
    &&& util::boundary(b, p.1)
    &&& util::boundary(b, p.2)
    &&& match p.0 {
        Some(k) => 0 <= k < n,
        None => p.1 < p.2,
    }
}

/// Every part is in order.
pub open spec fn parts_ok(b: Seq<u8>, parts: Seq<Part>, n: int) -> bool {
    forall|j: int| 0 <= j < parts.len() ==> part_ok(b, #[trigger] parts[j], n)
}

/// The matches lie in the text, and name one of `n` tokens.
pub open spec fn found_in(b: Seq<u8>, found: Seq<(u32, int, int)>, n: int) -> bool {
    forall|i: int|
        0 <= i < found.len() ==> (#[trigger] found[i]).0 < n && 0 <= found[i].1 <= found[i].2
            <= b.len()
}

/// Each part starts where the one before it ends, or before that; the first
/// starts at `pos` or before it, and the last ends where the text does.
pub open spec fn no_gaps(b: Seq<u8>, parts: Seq<Part>, pos: int) -> bool {
    if parts.len() == 0 {
        pos == b.len()
    } else {
        &&& parts[0].1 <= pos
        &&& parts.last().2 == b.len()
        &&& forall|i: int, j: int|
            0 <= i && j == i + 1 && j < parts.len() ==> (#[trigger] parts[j]).1 <= (
            #[trigger] parts[i]).2
    }
}

/// Each part starts where the one before it ends; the first starts at `pos`,
/// and the last ends where the text does.
pub open spec fn consecutive(b: Seq<u8>, parts: Seq<Part>, pos: int) -> bool {
    if parts.len() == 0 {
        pos == b.len()
    } else {
        &&& parts[0].1 == pos
        &&& parts.last().2 == b.len()
        &&& forall|i: int| 0 <= i < parts.len() ==> (#[trigger] parts[i]).1 <= parts[i].2
        &&& forall|i: int, j: int|
            0 <= i && j == i + 1 && j < parts.len() ==> (#[trigger] parts[j]).1 == (
            #[trigger] parts[i]).2
    }
}

/// No match starts inside whitespace that a match before it may have taken.
pub open spec fn apart(b: Seq<u8>, found: Seq<(u32, int, int)>) -> bool {
    forall|i: int, j: int|
        0 <= i < j < found.len() && util::boundary(b, found[i].2) ==> blank_end(
            b,
            (#[trigger] found[i]).2,
        ) <= (#[trigger] found[j]).1
}

/// The parts of a text from `pos` on.
proof fn lemma_parts(
    b: Seq<u8>,
    specs: Seq<AddedView>,
    found: Seq<(u32, int, int)>,
    i: int,
    pos: int,
)
    requires
        valid_utf8(b),
        found_in(b, found, specs.len() as int),
        util::boundary(b, pos),
        0 <= i <= found.len(),
    ensures
        parts_ok(b, parts_from(b, specs, found, i, pos), specs.len() as int),
        no_gaps(b, parts_from(b, specs, found, i, pos), pos),
        apart(b, found) && (forall|j: int| i <= j < found.len() ==> pos <= (#[trigger] found[j]).1)
            ==> consecutive(b, parts_from(b, specs, found, i, pos), pos),
    decreases found.len() - i,
{
    util::lemma_boundary_ends(b);
    let n = specs.len() as int;
    let parts = parts_from(b, specs, found, i, pos);
    if i < found.len() {
        let m = found[i];
        match taken_span(b, specs, pos, m) {
            None => {
                lemma_parts(b, specs, found, i + 1, pos);
            },
            Some((s, e)) => {
                lemma_blank(b, m.1, m.2);
                lemma_parts(b, specs, found, i + 1, e);
                let rest = parts_from(b, specs, found, i + 1, e);
                let here: Part = (Some(m.0 as int), s, e);
                let before: Part = (None, pos, s);
                let k: int = if pos < s {
                    2
                } else {
                    1
                };
                assert(parts.len() == rest.len() + k);
                assert(parts[k - 1] == here);
                assert(k == 2 ==> parts[0] == before);
                assert forall|j: int| 0 <= j < parts.len() implies part_ok(
                    b,
                    #[trigger] parts[j],
                    n,
                ) by {
                    if j >= k {
                        assert(parts[j] == rest[j - k]);
                    }
                }
                assert forall|x: int, y: int|
                    0 <= x && y == x + 1 && y < parts.len() implies (#[trigger] parts[y]).1 <= (
                #[trigger] parts[x]).2 by {
                    if x >= k {
                        assert(parts[x] == rest[x - k] && parts[y] == rest[y - k]);
                    } else if y == k {
                        assert(parts[y] == rest[0]);
                    }
                }
                if rest.len() > 0 {
                    assert(parts.last() == rest.last());
                }
                if apart(b, found) && (forall|j: int|
                    i <= j < found.len() ==> pos <= (#[trigger] found[j]).1) {
                    assert(pos <= found[i].1);
                    assert forall|j: int| i + 1 <= j < found.len() implies e <= (
                    #[trigger] found[j]).1 by {
                        assert(blank_end(b, found[i].2) <= found[j].1);
                    }
                    assert(consecutive(b, rest, e));
                    assert forall|x: int| 0 <= x < parts.len() implies (#[trigger] parts[x]).1
                        <= parts[x].2 by {
                        if x >= k {
                            assert(parts[x] == rest[x - k]);
                        }
                    }
                    assert forall|x: int, y: int|
                        0 <= x && y == x + 1 && y < parts.len() implies (#[trigger] parts[y]).1
                        == (#[trigger] parts[x]).2 by {
                        if x >= k {
                            assert(parts[x] == rest[x - k] && parts[y] == rest[y - k]);
                        } else if y == k {
                            assert(parts[y] == rest[0]);
                        }
                    }
                }
            },
        }
    }
}

/// The parts between which added tokens cut a text, with the whitespace that
/// tokens strip, leave nothing of the text out, and their ends are boundaries
/// of it.
pub proof fn law_parts_cover(b: Seq<u8>, specs: Seq<AddedView>, found: Seq<(u32, int, int)>)
    requires
        valid_utf8(b),
        found_in(b, found, specs.len() as int),
    ensures
        no_gaps(b, parts_from(b, specs, found, 0, 0), 0),
        parts_ok(b, parts_from(b, specs, found, 0, 0), specs.len() as int),
{
    util::lemma_boundary_ends(b);
    lemma_parts(b, specs, found, 0, 0);
}

/// The parts, with the whitespace that tokens strip, are the text cut into
/// consecutive pieces, where no match starts inside whitespace that another
/// may have taken.
pub proof fn law_parts_follow(b: Seq<u8>, specs: Seq<AddedView>, found: Seq<(u32, int, int)>)
    requires
        valid_utf8(b),
        found_in(b, found, specs.len() as int),
        apart(b, found),
    ensures
        consecutive(b, parts_from(b, specs, found, 0, 0), 0),
{
    util::lemma_boundary_ends(b);
    lemma_parts(b, specs, found, 0, 0);
}

/// Whitespace ends before a character that is none.
proof fn lemma_blank_stops(b: Seq<u8>, e: int, s: int)
    requires
        util::boundary(b, e),
        util::boundary(b, s),
        e <= s < b.len(),
        !util::char_is_whitespace(util::char_at(b, s)),
    ensures
        blank_end(b, e) <= s,
    decreases s - e,
{
    if e < s {
        util::lemma_after(b, e);
        util::lemma_after(b, s);
        if s < util::after(b, e) {
            assert(is_continuation_byte(b[s]));
        }
        if util::char_is_whitespace(util::char_at(b, e)) {
            lemma_blank_stops(b, util::after(b, e), s);
        }
    }
}

/// Matches that follow each other, each of them from a character on that is no
/// whitespace, do not start inside whitespace that another has taken.
pub proof fn law_matches_apart(b: Seq<u8>, found: Seq<(u32, int, int)>)
    requires
        valid_utf8(b),
        forall|i: int|
            0 <= i < found.len() ==> util::boundary(b, (#[trigger] found[i]).1) && found[i].1
                < b.len() && !util::char_is_whitespace(util::char_at(b, found[i].1)),
        forall|i: int, j: int|
            0 <= i < j < found.len() ==> (#[trigger] found[i]).2 <= (#[trigger] found[j]).1,
    ensures
        apart(b, found),
{
    assert forall|i: int, j: int|
        0 <= i < j < found.len() && util::boundary(b, found[i].2) implies blank_end(
        b,
        (#[trigger] found[i]).2,
    ) <= (#[trigger] found[j]).1 by {
        lemma_blank_stops(b, found[i].2, found[j].1);
    }
}

/// One more match: the text before it and the match itself.
proof fn lemma_match_step(
    b: Seq<u8>,
    specs: Seq<AddedView>,
    ms: Seq<(u32, int, int)>,
    i: int,
    pos: int,
    before: Seq<Part>,
    after: Seq<Part>,
    x: int,
    y: int,
)
    requires
        0 <= i < ms.len(),
        0 <= ms[i].0 < specs.len(),
        match_span(b, specs[ms[i].0 as int], pos, ms[i].1, ms[i].2) == Some((x, y)),
        parts_ok(b, before, specs.len() as int),
        util::boundary(b, pos),
        util::boundary(b, x),
        util::boundary(b, y),
        after =~= before + (if pos < x {
            seq![(None, pos, x)]
        } else {
            seq![]
        }) + seq![(Some(ms[i].0 as int), x, y)],
    ensures
        after + parts_from(b, specs, ms, i + 1, y) == before + parts_from(b, specs, ms, i, pos),
        parts_ok(b, after, specs.len() as int),
{
    assert(after + parts_from(b, specs, ms, i + 1, y) =~= before + parts_from(
        b,
        specs,
        ms,
        i,
        pos,
    ));
    assert forall|j: int| 0 <= j < after.len() implies part_ok(
        b,
        #[trigger] after[j],
        specs.len() as int,
    ) by {
        if j < before.len() {
            assert(after[j] == before[j]);
        }
    }
}

/// Split `text` at added-token matches, honoring per-token flags.
pub(crate) fn split_on_added(
    text: &str,
    matcher: &daggrs::DoubleArrayAhoCorasick,
    specs: &[AddedTokenSpec],
) -> (r: Vec<(Option<usize>, usize, usize)>)
    requires
        automaton::matcher_compiled(*matcher),
        ids_below(automaton::matcher_patterns(*matcher), specs@.len() as int),
    ensures
        part_views(r@) == parts_from(
            text.spec_bytes(),
            models(specs@),
            automaton::matches_in(automaton::matcher_patterns(*matcher), text.spec_bytes()),
            0,
            0,
        ),
        parts_ok(text.spec_bytes(), part_views(r@), specs@.len() as int),
        no_gaps(text.spec_bytes(), part_views(r@), 0),
{
    let matches = automaton::all_matches(matcher, text.as_bytes());
    proof {
        let p = automaton::matcher_patterns(*matcher);
        let b = text.spec_bytes();
        assert forall|i: int| 0 <= i < matches@.len() implies (#[trigger] matches@[i]).0
            < specs@.len() && matches@[i].1 <= matches@[i].2 <= b.len() by {
            let m = matches@[i];
            let found = match_views(matches@);
            assert(found[i] == (m.0, m.1 as int, m.2 as int));
            assert(automaton::is_match(p, b, found[i]));
            let k = choose|k: int|
                0 <= k < p.len() && #[trigger] p[k] == (b.subrange(m.1 as int, m.2 as int), m.0);
            assert(p[k].1 == m.0);
        }
    }
    parts_of(text, matches.as_slice(), specs)
}

/// The ids of the patterns are below `n`.
pub open spec fn ids_below(patterns: Seq<automaton::Pattern>, n: int) -> bool {
    forall|i: int| 0 <= i < patterns.len() ==> (#[trigger] patterns[i]).1 < n
}

} // verus!
