//! Generic pretokenizer parameterized by `PretokConfig`.
//!
//! All BPE-style pretokenizers (GPT-2, CL100K, O200K, Voyage, SmolLM, DeepSeek, Qwen)
//! are instances of `Core<C>` with different config constants.
use super::config::{
    ContractionCase, ContractionMode, DigitMode, LetterMode, PretokConfig, PunctClass,
    PunctPrefixMode, PunctTrailing, WsException, WsPattern,
};
use super::rules;
use super::rules::Class;
use super::util;
use super::util::{
    decode_utf8, is_ascii_letter, is_digit, is_lower, is_punct_or_symbol, is_unicode_letter,
    is_unicode_mark, is_upper,
};
use crate::text::substr;
use std::marker::PhantomData;
use vstd::prelude::*;
use vstd::string::*;

verus! {

/// A scanner over a text that hands out one piece after another.
pub struct Core<'a, C: PretokConfig> {
    text: &'a str,
    bytes: &'a [u8],
    pos: usize,
    len: usize,
    _cfg: PhantomData<C>,
}

impl<'a, C: PretokConfig> Core<'a, C> {
    /// The bytes of the whole text.
    pub closed spec fn text(&self) -> Seq<u8> {
        self.bytes@
    }

    /// The start of the next piece.
    pub closed spec fn position(&self) -> int {
        self.pos as int
    }

    /// The scanner stands at a character boundary of its text.
    pub closed spec fn wf(&self) -> bool {
        &&& self.bytes@ == self.text.spec_bytes()
        &&& self.len == self.bytes@.len()
        &&& util::boundary(self.bytes@, self.pos as int)
    }

    /// The scanner `o`, moved to `p`.
    spec fn moved(self, o: Self, p: int) -> bool {
        &&& self.text == o.text
        &&& self.bytes == o.bytes
        &&& self.len == o.len
        &&& self.pos as int == p
        &&& self.wf()
    }

    /// A scanner at the start of the text.
    pub fn new(text: &'a str) -> (r: Self)
        ensures
            r.wf(),
            r.text() == text.spec_bytes(),
            r.position() == 0,
    {
        proof {
            vstd::utf8::encode_utf8_valid_utf8(text@);
            util::lemma_boundary_ends(text.spec_bytes());
        }
        let bytes = text.as_bytes();
        Core { text, bytes, pos: 0, len: bytes.len(), _cfg: PhantomData }
    }

    /// A scanner at the boundary `pos` of the text.
    pub fn with_pos(text: &'a str, pos: usize) -> (r: Self)
        requires
            util::boundary(text.spec_bytes(), pos as int),
        ensures
            r.wf(),
            r.text() == text.spec_bytes(),
            r.position() == pos,
    {
        let bytes = text.as_bytes();
        Core { text, bytes, pos, len: bytes.len(), _cfg: PhantomData }
    }

    /// The text from `start` to the scanner's position.
    fn emit(&self, start: usize) -> (r: &'a str)
        requires
            self.wf(),
            start <= self.pos,
            util::boundary(self.bytes@, start as int),
        ensures
            r.spec_bytes() == self.bytes@.subrange(start as int, self.pos as int),
    {
        substr(self.text, start, self.pos)
    }

    // ---- Letter scanning ----

    /// Scan letters: `\p{L}+` (Plain) or `[\p{L}\p{M}]+` (PlainWithMarks).
    fn scan_letters(&mut self)
        requires
            old(self).wf(),
        ensures
            final(self).moved(
                *old(self),
                rules::run_end::<C>(old(self).bytes@, old(self).pos as int, Class::Letter),
            ),
            final(self).pos >= old(self).pos,
    {
        let ghost b = self.bytes@;
        while self.pos < self.len
            invariant
                self.moved(*old(self), self.pos as int),
                self.bytes@ == b,
                old(self).pos <= self.pos,
                rules::run_end::<C>(b, old(self).pos as int, Class::Letter) == rules::run_end::<C>(
                    b,
                    self.pos as int,
                    Class::Letter,
                ),
            decreases self.len - self.pos,
        {
            proof {
                util::lemma_after(b, self.pos as int);
            }
            let x: u8 = self.bytes[self.pos];
            if is_ascii_letter(x) {
                self.pos = self.pos + 1;
            } else if x >= 0x80 {
                let (ch, cl) = decode_utf8(self.bytes, self.pos);
                if C::LETTER_MODE == LetterMode::PlainWithMarks {
                    if ch.is_alphabetic() || is_unicode_mark(ch) {
                        self.pos = self.pos + cl;
                    } else {
                        return;
                    }
                } else {
                    if is_unicode_letter(ch) {
                        self.pos = self.pos + cl;
                    } else {
                        return;
                    }
                }
            } else {
                return;
            }
        }
    }

    /// Scan `[\p{Ll}\p{Lm}\p{Lo}\p{M}]+`.
    fn scan_lowercase(&mut self)
        requires
            old(self).wf(),
        ensures
            final(self).moved(
                *old(self),
                rules::run_end::<C>(old(self).bytes@, old(self).pos as int, Class::Lower),
            ),
            final(self).pos >= old(self).pos,
    {
        let ghost b = self.bytes@;
        while self.pos < self.len
            invariant
                self.moved(*old(self), self.pos as int),
                self.bytes@ == b,
                old(self).pos <= self.pos,
                rules::run_end::<C>(b, old(self).pos as int, Class::Lower) == rules::run_end::<C>(
                    b,
                    self.pos as int,
                    Class::Lower,
                ),
            decreases self.len - self.pos,
        {
            proof {
                util::lemma_after(b, self.pos as int);
            }
            let x: u8 = self.bytes[self.pos];
            if is_lower(x) {
                self.pos = self.pos + 1;
            } else if x >= 0x80 {
                let (ch, cl) = decode_utf8(self.bytes, self.pos);
                if is_unicode_mark(ch) || ch.is_lowercase() || (is_unicode_letter(ch)
                    && !ch.is_uppercase()) {
                    self.pos = self.pos + cl;
                } else {
                    return;
                }
            } else {
                return;
            }
        }
    }

    /// Scan upper/titlecase/modifier/other letters, then lowercase and marks.
    fn scan_upper_then_lower(&mut self)
        requires
            old(self).wf(),
        ensures
            final(self).moved(
                *old(self),
                rules::upper_then_lower_end::<C>(old(self).bytes@, old(self).pos as int),
            ),
            final(self).pos >= old(self).pos,
    {
        let ghost b = self.bytes@;
        while self.pos < self.len
            invariant
                self.moved(*old(self), self.pos as int),
                self.bytes@ == b,
                old(self).pos <= self.pos,
                rules::run_end::<C>(b, old(self).pos as int, Class::Upper) == rules::run_end::<C>(
                    b,
                    self.pos as int,
                    Class::Upper,
                ),
            decreases self.len - self.pos,
        {
            proof {
                util::lemma_after(b, self.pos as int);
            }
            let x: u8 = self.bytes[self.pos];
            if is_upper(x) {
                self.pos = self.pos + 1;
            } else if is_lower(x) {
                self.pos = self.pos + 1;
                self.scan_lowercase();
                return;
            } else if x >= 0x80 {
                let (ch, cl) = decode_utf8(self.bytes, self.pos);
                if ch.is_uppercase() {
                    self.pos = self.pos + cl;
                } else if ch.is_lowercase() || is_unicode_mark(ch) {
                    self.pos = self.pos + cl;
                    self.scan_lowercase();
                    return;
                } else if is_unicode_letter(ch) {
                    self.pos = self.pos + cl;
                } else {
                    return;
                }
            } else {
                return;
            }
        }
    }

    /// O200K CamelCase: dispatch on the case of the word's first byte.
    fn scan_letters_case_aware(&mut self, first: u8)
        requires
            old(self).wf(),
        ensures
            final(self).moved(
                *old(self),
                rules::camel_end::<C>(
                    old(self).bytes@,
                    old(self).pos as int,
                    util::ascii_lower(first),
                ),
            ),
            final(self).pos >= old(self).pos,
    {
        if is_lower(first) {
            self.scan_lowercase();
        } else {
            self.scan_upper_then_lower();
        }
    }

    /// Scan ASCII-only letters (DeepSeek: punct prefix, then ASCII letters only).
    fn scan_ascii_letters(&mut self)
        requires
            old(self).wf(),
        ensures
            final(self).moved(
                *old(self),
                rules::run_end::<C>(old(self).bytes@, old(self).pos as int, Class::AsciiLetter),
            ),
            final(self).pos >= old(self).pos,
    {
        let ghost b = self.bytes@;
        while self.pos < self.len
            invariant
                self.moved(*old(self), self.pos as int),
                self.bytes@ == b,
                old(self).pos <= self.pos,
                rules::run_end::<C>(b, old(self).pos as int, Class::AsciiLetter) == rules::run_end::<C>(
                    b,
                    self.pos as int,
                    Class::AsciiLetter,
                ),
            decreases self.len - self.pos,
        {
            proof {
                util::lemma_after(b, self.pos as int);
            }
            let x: u8 = self.bytes[self.pos];
            if is_ascii_letter(x) {
                self.pos = self.pos + 1;
            } else {
                return;
            }
        }
    }

    // ---- Digit scanning ----

    /// Scan the numerics after the first one of a number.
    fn scan_digits(&mut self)
        requires
            old(self).wf(),
        ensures
            final(self).moved(
                *old(self),
                rules::number_end::<C>(old(self).bytes@, old(self).pos as int),
            ),
            final(self).pos >= old(self).pos,
    {
        match C::DIGIT_MODE {
            DigitMode::Unlimited => self.scan_numerics(),
            DigitMode::Chunked3 => {
                let ghost b = self.bytes@;
                let mut count: u8 = 1;
                while self.pos < self.len && count < 3
                    invariant
                        self.moved(*old(self), self.pos as int),
                        self.bytes@ == b,
                        old(self).pos <= self.pos,
                        1 <= count <= 3,
                        C::DIGIT_MODE == DigitMode::Chunked3,
                        rules::run_end_upto::<C>(b, old(self).pos as int, Class::Number, 2)
                            == rules::run_end_upto::<C>(
                            b,
                            self.pos as int,
                            Class::Number,
                            (3 - count) as nat,
                        ),
                    decreases 3 - count,
                {
                    proof {
                        util::lemma_after(b, self.pos as int);
                    }
                    let x: u8 = self.bytes[self.pos];
                    if is_digit(x) {
                        self.pos = self.pos + 1;
                        count = count + 1;
                    } else if x >= 0x80 {
                        let (ch, cl) = decode_utf8(self.bytes, self.pos);
                        if ch.is_numeric() {
                            self.pos = self.pos + cl;
                            count = count + 1;
                        } else {
                            return;
                        }
                    } else {
                        return;
                    }
                }
            },
            DigitMode::Single => {},
        }
    }

    /// Scan `\p{N}+`: Nd, Nl and No, so non-ASCII numerics continue a run.
    fn scan_numerics(&mut self)
        requires
            old(self).wf(),
        ensures
            final(self).moved(
                *old(self),
                rules::run_end::<C>(old(self).bytes@, old(self).pos as int, Class::Number),
            ),
            final(self).pos >= old(self).pos,
    {
        let ghost b = self.bytes@;
        while self.pos < self.len
            invariant
                self.moved(*old(self), self.pos as int),
                self.bytes@ == b,
                old(self).pos <= self.pos,
                rules::run_end::<C>(b, old(self).pos as int, Class::Number) == rules::run_end::<C>(
                    b,
                    self.pos as int,
                    Class::Number,
                ),
            decreases self.len - self.pos,
        {
            proof {
                util::lemma_after(b, self.pos as int);
            }
            let x: u8 = self.bytes[self.pos];
            if is_digit(x) {
                self.pos = self.pos + 1;
            } else if x >= 0x80 {
                let (ch, cl) = decode_utf8(self.bytes, self.pos);
                if ch.is_numeric() {
                    self.pos = self.pos + cl;
                } else {
                    return;
                }
            } else {
                return;
            }
        }
    }

    // ---- Contraction detection ----

    /// A byte as a contraction compares it.
    fn fold(b: u8) -> (r: u8)
        ensures
            r == rules::folded::<C>(b),
    {
        if C::CONTRACTION_CASE == ContractionCase::Insensitive {
            b | 0x20
        } else {
            b
        }
    }

    /// The length of the contraction at the scanner's position, or 0.
    fn check_contraction(&self) -> (n: usize)
        requires
            self.wf(),
        ensures
            n == rules::contraction_len::<C>(self.bytes@, self.pos as int),
            self.pos + n <= self.len,
            util::boundary(self.bytes@, self.pos + n),
    {
        if C::CONTRACTION_MODE == ContractionMode::Absent {
            return 0;
        }
        if self.pos >= self.len || self.bytes[self.pos] != 0x27 {
            return 0;
        }
        let rem: usize = self.len - self.pos;
        if rem < 2 {
            return 0;
        }
        proof {
            let b = self.bytes@;
            let p = self.pos as int;
            rules::lemma_here(b, p);
            rules::lemma_here(b, p + 1);
            rules::lemma_fold(b[p + 1]);
            if b[p + 1] < 0x80 {
                rules::lemma_here(b, p + 2);
                if p + 2 < b.len() {
                    rules::lemma_fold(b[p + 2]);
                }
            }
        }
        let b1: u8 = Self::fold(self.bytes[self.pos + 1]);
        // No lookahead in the pattern: the contraction is there even when
        // more letters follow ("don'ts" is "don", "'t", "s").
        if b1 == 0x73 || b1 == 0x74 || b1 == 0x64 || b1 == 0x6d {
            return 2;
        }
        if rem < 3 {
            return 0;
        }
        let b2: u8 = Self::fold(self.bytes[self.pos + 2]);
        if (b1 == 0x6c && b2 == 0x6c) || (b1 == 0x76 && b2 == 0x65) || (b1 == 0x72 && b2 == 0x65) {
            return 3;
        }
        0
    }

    // ---- Punctuation scanning ----

    /// Is an ASCII byte in this config's punct class?
    fn is_punct_byte(b: u8) -> (r: bool)
        ensures
            r == rules::punct_byte::<C>(b),
    {
        if C::PUNCT_CLASS == PunctClass::PunctSymbolOnly {
            (0x21 <= b && b <= 0x2f) || (0x3a <= b && b <= 0x40) || (0x5b <= b && b <= 0x60) || (
            0x7b <= b && b <= 0x7e)
        } else {
            !is_ascii_letter(b) && !is_digit(b) && b != 0x20 && b != 0x09 && b != 0x0a && b != 0x0d
                && b < 0x80
        }
    }

    /// Is a non-ASCII character in this config's punct class?
    fn is_unicode_punct_char(ch: char) -> (r: bool)
        ensures
            r == rules::unicode_punct::<C>(ch),
    {
        if C::PUNCT_CLASS == PunctClass::PunctSymbolOnly {
            is_punct_or_symbol(ch)
        } else if C::LETTER_MODE == LetterMode::PlainWithMarks || C::LETTER_MODE
            == LetterMode::CamelCase {
            !ch.is_alphabetic() && !ch.is_numeric() && !ch.is_whitespace() && !is_unicode_mark(ch)
        } else {
            !is_unicode_letter(ch) && !ch.is_numeric() && !ch.is_whitespace()
        }
    }

    /// Scan the characters of this config's punct class.
    fn scan_punct_chars(&mut self)
        requires
            old(self).wf(),
        ensures
            final(self).moved(
                *old(self),
                rules::run_end::<C>(old(self).bytes@, old(self).pos as int, Class::Punct),
            ),
            final(self).pos >= old(self).pos,
    {
        let ghost b = self.bytes@;
        while self.pos < self.len
            invariant
                self.moved(*old(self), self.pos as int),
                self.bytes@ == b,
                old(self).pos <= self.pos,
                rules::run_end::<C>(b, old(self).pos as int, Class::Punct) == rules::run_end::<C>(
                    b,
                    self.pos as int,
                    Class::Punct,
                ),
            decreases self.len - self.pos,
        {
            proof {
                util::lemma_after(b, self.pos as int);
            }
            let x: u8 = self.bytes[self.pos];
            if Self::is_punct_byte(x) {
                self.pos = self.pos + 1;
            } else if x >= 0x80 {
                let (ch, cl) = decode_utf8(self.bytes, self.pos);
                if Self::is_unicode_punct_char(ch) {
                    self.pos = self.pos + cl;
                } else {
                    return;
                }
            } else {
                return;
            }
        }
    }

    /// Scan what may trail a punct group: newlines, and slashes for O200K.
    fn scan_trailing(&mut self)
        requires
            old(self).wf(),
        ensures
            final(self).moved(
                *old(self),
                rules::run_end::<C>(old(self).bytes@, old(self).pos as int, Class::Trailing),
            ),
            final(self).pos >= old(self).pos,
    {
        let ghost b = self.bytes@;
        while self.pos < self.len
            invariant
                self.moved(*old(self), self.pos as int),
                self.bytes@ == b,
                old(self).pos <= self.pos,
                rules::run_end::<C>(b, old(self).pos as int, Class::Trailing) == rules::run_end::<C>(
                    b,
                    self.pos as int,
                    Class::Trailing,
                ),
            decreases self.len - self.pos,
        {
            proof {
                util::lemma_after(b, self.pos as int);
            }
            let x: u8 = self.bytes[self.pos];
            if C::PUNCT_TRAILING == PunctTrailing::Absent {
                return;
            }
            if x == 0x0a || x == 0x0d {
                self.pos = self.pos + 1;
            } else if C::PUNCT_TRAILING == PunctTrailing::NewlinesAndSlashes && x == 0x2f {
                self.pos = self.pos + 1;
            } else {
                return;
            }
        }
    }

    /// Scan a punct group and what may trail it.
    fn scan_punct(&mut self)
        requires
            old(self).wf(),
        ensures
            final(self).moved(
                *old(self),
                rules::punct_end::<C>(old(self).bytes@, old(self).pos as int),
            ),
            final(self).pos >= old(self).pos,
    {
        self.scan_punct_chars();
        self.scan_trailing();
    }

    // ---- Whitespace scanning ----

    /// Scan `[\r\n]*`.
    fn scan_newlines(&mut self)
        requires
            old(self).wf(),
        ensures
            final(self).moved(
                *old(self),
                rules::run_end::<C>(old(self).bytes@, old(self).pos as int, Class::Newline),
            ),
            final(self).pos >= old(self).pos,
    {
        let ghost b = self.bytes@;
        while self.pos < self.len
            invariant
                self.moved(*old(self), self.pos as int),
                self.bytes@ == b,
                old(self).pos <= self.pos,
                rules::run_end::<C>(b, old(self).pos as int, Class::Newline) == rules::run_end::<C>(
                    b,
                    self.pos as int,
                    Class::Newline,
                ),
            decreases self.len - self.pos,
        {
            proof {
                util::lemma_after(b, self.pos as int);
            }
            let x: u8 = self.bytes[self.pos];
            if x == 0x0a || x == 0x0d {
                self.pos = self.pos + 1;
            } else {
                return;
            }
        }
    }

    /// Scan `\s+`. Returns the start of the last whitespace character and the
    /// position behind the last newline (0 if there is none).
    fn scan_space_run(&mut self) -> (r: (usize, usize))
        requires
            old(self).wf(),
        ensures
            final(self).moved(
                *old(self),
                rules::run_end::<C>(old(self).bytes@, old(self).pos as int, Class::Space),
            ),
            old(self).pos <= r.0 <= final(self).pos,
            old(self).pos < old(self).len && rules::member::<C>(
                old(self).bytes@,
                old(self).pos as int,
                Class::Space,
            ) ==> old(self).pos < final(self).pos,
            util::boundary(old(self).bytes@, r.0 as int),
            r.0 == rules::last_start(old(self).bytes@, old(self).pos as int, final(self).pos as int),
            r.1 == rules::last_newline_end(
                old(self).bytes@,
                old(self).pos as int,
                final(self).pos as int,
            ),
    {
        let ghost b = self.bytes@;
        let start: usize = self.pos;
        let mut prev_pos: usize = self.pos;
        let mut newline_end: usize = 0;
        while self.pos < self.len
            invariant
                self.moved(*old(self), self.pos as int),
                self.bytes@ == b,
                start == old(self).pos,
                start <= prev_pos <= self.pos,
                start == self.pos || start < self.pos,
                util::boundary(b, prev_pos as int),
                prev_pos == rules::last_start(b, start as int, self.pos as int),
                newline_end == rules::last_newline_end(b, start as int, self.pos as int),
                rules::run_end::<C>(b, start as int, Class::Space) == rules::run_end::<C>(
                    b,
                    self.pos as int,
                    Class::Space,
                ),
            decreases self.len - self.pos,
        {
            let ghost q = self.pos as int;
            proof {
                util::lemma_after(b, q);
                rules::lemma_last_start(b, start as int, q, util::after(b, q));
                if !util::newline(b[q]) {
                    rules::lemma_last_newline(b, start as int, q, util::after(b, q));
                }
            }
            let x: u8 = self.bytes[self.pos];
            if x == 0x0a || x == 0x0d {
                prev_pos = self.pos;
                self.pos = self.pos + 1;
                newline_end = self.pos;
            } else if x == 0x20 || x == 0x09 {
                prev_pos = self.pos;
                self.pos = self.pos + 1;
            } else if x >= 0x80 {
                let (ch, cl) = decode_utf8(self.bytes, self.pos);
                if ch.is_whitespace() {
                    prev_pos = self.pos;
                    self.pos = self.pos + cl;
                } else {
                    return (prev_pos, newline_end);
                }
            } else {
                return (prev_pos, newline_end);
            }
        }
        (prev_pos, newline_end)
    }

    /// The whitespace alternative of this config's pattern.
    fn scan_whitespace(&mut self)
        requires
            old(self).wf(),
        ensures
            final(self).moved(
                *old(self),
                rules::space_end::<C>(old(self).bytes@, old(self).pos as int),
            ),
            old(self).pos < old(self).len && rules::member::<C>(
                old(self).bytes@,
                old(self).pos as int,
                Class::Space,
            ) ==> old(self).pos < final(self).pos,
    {
        if C::WS_PATTERN == WsPattern::Cl100k {
            self.scan_whitespace_cl100k();
        } else {
            self.scan_whitespace_gpt2();
        }
    }

    /// GPT-2 style: `\s+(?!\S)|\s+`: greedy, back up one if followed by non-whitespace.
    fn scan_whitespace_gpt2(&mut self)
        requires
            old(self).wf(),
            C::WS_PATTERN == WsPattern::Gpt2,
        ensures
            final(self).moved(
                *old(self),
                rules::space_end::<C>(old(self).bytes@, old(self).pos as int),
            ),
            old(self).pos < old(self).len && rules::member::<C>(
                old(self).bytes@,
                old(self).pos as int,
                Class::Space,
            ) ==> old(self).pos < final(self).pos,
    {
        let start: usize = self.pos;
        let (prev_pos, _) = self.scan_space_run();
        if self.pos < self.len && prev_pos > start {
            if C::WS_EXCEPTION == WsException::Digits {
                // SmolLM: do not back up before numerics.
                let next: u8 = self.bytes[self.pos];
                let is_num = if next >= 0x80 {
                    let (ch, _) = decode_utf8(self.bytes, self.pos);
                    ch.is_numeric()
                } else {
                    is_digit(next)
                };
                if !is_num {
                    self.pos = prev_pos;
                }
            } else {
                self.pos = prev_pos;
            }
        }
    }

    /// CL100K style: `\s*[\r\n]|\s+(?!\S)|\s+`: prioritize newlines.
    fn scan_whitespace_cl100k(&mut self)
        requires
            old(self).wf(),
            C::WS_PATTERN == WsPattern::Cl100k,
        ensures
            final(self).moved(
                *old(self),
                rules::space_end::<C>(old(self).bytes@, old(self).pos as int),
            ),
            old(self).pos < old(self).len && rules::member::<C>(
                old(self).bytes@,
                old(self).pos as int,
                Class::Space,
            ) ==> old(self).pos < final(self).pos,
    {
        let start: usize = self.pos;
        let (prev_pos, last_newline_end) = self.scan_space_run();
        if last_newline_end > 0 {
            proof {
                rules::lemma_newline_in_run(self.bytes@, start as int, self.pos as int);
                rules::lemma_behind_newline(self.bytes@, start as int, last_newline_end as int);
            }
            self.pos = last_newline_end;
        } else if self.pos < self.len && prev_pos > start {
            if C::WS_EXCEPTION == WsException::Cjk {
                // DeepSeek: do not back up before CJK.
                let next: u8 = self.bytes[self.pos];
                if !is_digit(next) && !(next >= 0x80 && self.is_cjk_start()) {
                    self.pos = prev_pos;
                }
            } else {
                self.pos = prev_pos;
            }
        }
    }

    /// Does a CJK character start at the scanner's position?
    fn is_cjk_start(&self) -> (r: bool)
        requires
            self.wf(),
            self.pos < self.len,
        ensures
            r == rules::cjk(util::char_at(self.bytes@, self.pos as int)),
    {
        let (ch, _) = decode_utf8(self.bytes, self.pos);
        let cp: u32 = ch as u32;
        (0x4e00 <= cp && cp <= 0x9fa5) || (0x3040 <= cp && cp <= 0x309f) || (0x30a0 <= cp && cp
            <= 0x30ff)
    }

    // ---- Letter entry helpers ----

    /// After a word: where contractions are suffixes, take the one that follows.
    fn handle_post_letters(&mut self)
        requires
            old(self).wf(),
        ensures
            final(self).moved(
                *old(self),
                rules::with_suffix::<C>(old(self).bytes@, old(self).pos as int),
            ),
            final(self).pos >= old(self).pos,
    {
        if C::CONTRACTION_MODE == ContractionMode::Suffix {
            self.take_contraction();
        }
    }

    /// After a camel-case word: take the contraction that follows.
    fn take_contraction(&mut self)
        requires
            old(self).wf(),
        ensures
            final(self).moved(
                *old(self),
                rules::with_contraction::<C>(old(self).bytes@, old(self).pos as int),
            ),
            final(self).pos >= old(self).pos,
    {
        let clen: usize = self.check_contraction();
        if clen > 0 {
            self.pos = self.pos + clen;
        }
    }

    /// Scan the rest of a word whose first letter, `first`, is already consumed.
    fn do_letter_scan(&mut self, first: u8)
        requires
            old(self).wf(),
        ensures
            final(self).moved(
                *old(self),
                rules::word_end::<C>(old(self).bytes@, old(self).pos as int, first),
            ),
            final(self).pos >= old(self).pos,
    {
        if C::LETTER_MODE == LetterMode::CamelCase {
            self.scan_letters_case_aware(first);
        } else {
            self.scan_letters();
        }
    }

    /// Is a non-ASCII character a letter for this config?
    fn is_letter_char(ch: char) -> (r: bool)
        ensures
            r == rules::letter_char::<C>(ch),
    {
        if C::LETTER_MODE == LetterMode::PlainWithMarks || C::LETTER_MODE == LetterMode::CamelCase {
            ch.is_alphabetic() || is_unicode_mark(ch)
        } else {
            is_unicode_letter(ch)
        }
    }

    /// After a one-character prefix, scan the word whose first letter is the
    /// ASCII letter `next`. DeepSeek: only ASCII letters.
    fn scan_letters_after_punct_prefix(&mut self, next: u8)
        requires
            old(self).wf(),
            old(self).pos < old(self).len,
            next == old(self).bytes@[old(self).pos as int],
            next < 0x80,
        ensures
            final(self).moved(
                *old(self),
                rules::prefixed_word_end::<C>(old(self).bytes@, old(self).pos as int),
            ),
            final(self).pos > old(self).pos,
    {
        proof {
            util::lemma_after(self.bytes@, self.pos as int);
        }
        self.pos = self.pos + 1;
        if C::PUNCT_PREFIX_MODE == PunctPrefixMode::AsciiOnly {
            self.scan_ascii_letters();
        } else {
            self.do_letter_scan(next);
        }
    }

    // ---- pieces, by their first character ----

    /// Scan a piece that starts with an apostrophe: a contraction, a prefixed
    /// word or a punct group.
    fn scan_apostrophe_piece(&mut self)
        requires
            old(self).wf(),
            old(self).pos < old(self).len,
            old(self).bytes@[old(self).pos as int] == 0x27,
        ensures
            final(self).moved(
                *old(self),
                rules::apostrophe_piece_end::<C>(old(self).bytes@, old(self).pos as int),
            ),
            final(self).pos > old(self).pos,
    {
        proof {
            rules::lemma_here(self.bytes@, self.pos as int);
        }
        let clen: usize = self.check_contraction();
        if clen > 0 && C::CONTRACTION_MODE == ContractionMode::Standalone {
            self.pos = self.pos + clen;
            return;
        }
        // Not a standalone contraction: a prefix or punct.
        self.pos = self.pos + 1;
        if self.pos < self.len {
            let next: u8 = self.bytes[self.pos];
            if is_ascii_letter(next) {
                self.scan_letters_after_punct_prefix(next);
                self.handle_post_letters();
            } else if next >= 0x80 {
                let (ch, _) = decode_utf8(self.bytes, self.pos);
                if Self::is_letter_char(ch) && C::PUNCT_PREFIX_MODE != PunctPrefixMode::AsciiOnly {
                    self.scan_letters();
                    if C::LETTER_MODE == LetterMode::CamelCase {
                        self.take_contraction();
                    } else {
                        self.handle_post_letters();
                    }
                } else {
                    self.scan_punct();
                }
            } else {
                self.scan_punct();
            }
        }
    }

    /// Scan a word that starts with the non-ASCII letter at the scanner's
    /// position, behind a prefix.
    fn scan_prefixed_unicode_word(&mut self)
        requires
            old(self).wf(),
            old(self).pos < old(self).len,
        ensures
            final(self).moved(
                *old(self),
                rules::prefixed_unicode_word_end::<C>(old(self).bytes@, old(self).pos as int),
            ),
            final(self).pos >= old(self).pos,
    {
        if C::LETTER_MODE == LetterMode::CamelCase {
            let (ch, cl) = decode_utf8(self.bytes, self.pos);
            self.pos = self.pos + cl;
            if ch.is_lowercase() || is_unicode_mark(ch) {
                self.scan_lowercase();
            } else {
                self.scan_upper_then_lower();
            }
            self.take_contraction();
        } else {
            self.scan_letters();
            self.handle_post_letters();
        }
    }

    /// Scan a piece that starts with a space or tab: a prefixed word, number
    /// or punct group, or a whitespace run.
    fn scan_blank_piece(&mut self)
        requires
            old(self).wf(),
            old(self).pos < old(self).len,
            util::blank(old(self).bytes@[old(self).pos as int]),
        ensures
            final(self).moved(
                *old(self),
                rules::blank_piece_end::<C>(old(self).bytes@, old(self).pos as int),
            ),
            final(self).pos > old(self).pos,
    {
        proof {
            rules::lemma_here(self.bytes@, self.pos as int);
            rules::lemma_here(self.bytes@, self.pos + 1);
        }
        if self.pos + 1 >= self.len {
            self.pos = self.pos + 1;
            return;
        }
        let next: u8 = self.bytes[self.pos + 1];
        if is_ascii_letter(next) {
            self.pos = self.pos + 2;
            self.do_letter_scan(next);
            self.handle_post_letters();
        } else if next >= 0x80 {
            let (ch, cl) = decode_utf8(self.bytes, self.pos + 1);
            if Self::is_letter_char(ch) {
                self.pos = self.pos + 1;
                self.scan_prefixed_unicode_word();
            } else if ch.is_numeric() && C::SPACE_PREFIXES_DIGITS {
                // GPT-2 ` ?\p{N}+`: the space attaches to a run of numerics.
                self.pos = self.pos + 1 + cl;
                self.scan_digits();
            } else if ch.is_whitespace() || ch.is_numeric() {
                self.scan_whitespace();
            } else {
                self.pos = self.pos + 1;
                self.scan_punct();
            }
        } else if C::SPACE_PREFIXES_DIGITS && is_digit(next) {
            // GPT-2: the space prefixes digits.
            self.pos = self.pos + 2;
            self.scan_digits();
        } else if Self::is_punct_byte(next) {
            self.pos = self.pos + 1;
            self.scan_punct();
        } else if is_digit(next) {
            // A space before a digit, no prefix.
            if C::WS_PATTERN == WsPattern::Cl100k {
                self.scan_whitespace();
            } else {
                self.pos = self.pos + 1;
            }
        } else {
            self.scan_whitespace();
        }
    }

    /// Scan a piece that starts with a newline.
    fn scan_newline_piece(&mut self)
        requires
            old(self).wf(),
            old(self).pos < old(self).len,
            util::newline(old(self).bytes@[old(self).pos as int]),
        ensures
            final(self).moved(
                *old(self),
                rules::newline_piece_end::<C>(old(self).bytes@, old(self).pos as int),
            ),
            final(self).pos > old(self).pos,
    {
        proof {
            rules::lemma_here(self.bytes@, self.pos as int);
        }
        if C::WS_PATTERN == WsPattern::Cl100k {
            // CL100K: consume all consecutive newlines.
            self.pos = self.pos + 1;
            self.scan_newlines();
        } else {
            // GPT-2: a whitespace run with lookahead.
            self.scan_whitespace();
        }
    }

    /// After a non-ASCII character outside DeepSeek's punct class: it is the
    /// letter rule's optional one-character prefix, or stands alone.
    fn scan_format_piece(&mut self)
        requires
            old(self).wf(),
        ensures
            final(self).moved(
                *old(self),
                rules::format_piece_end::<C>(old(self).bytes@, old(self).pos as int),
            ),
            final(self).pos >= old(self).pos,
    {
        proof {
            rules::lemma_here(self.bytes@, self.pos as int);
        }
        if self.pos < self.len {
            let next: u8 = self.bytes[self.pos];
            if is_ascii_letter(next) {
                self.pos = self.pos + 1;
                self.scan_letters();
                self.handle_post_letters();
            } else if next >= 0x80 {
                let (ch, cl) = decode_utf8(self.bytes, self.pos);
                if Self::is_letter_char(ch) {
                    self.pos = self.pos + cl;
                    self.scan_letters();
                    self.handle_post_letters();
                }
            }
        }
    }

    /// After a non-ASCII punct character: it prefixes a word where the
    /// config's letter rule allows it, else it starts a punct group.
    fn scan_symbol_piece(&mut self)
        requires
            old(self).wf(),
        ensures
            final(self).moved(
                *old(self),
                rules::symbol_piece_end::<C>(old(self).bytes@, old(self).pos as int),
            ),
            final(self).pos >= old(self).pos,
    {
        if C::PUNCT_PREFIX_MODE == PunctPrefixMode::SpaceOnly || C::PUNCT_PREFIX_MODE
            == PunctPrefixMode::AsciiOnly {
            // GPT-2, SmolLM: punct never prefixes letters. DeepSeek: only the
            // ASCII punct list prefixes letters.
            self.scan_punct();
        } else if self.pos < self.len {
            let next: u8 = self.bytes[self.pos];
            if is_ascii_letter(next) {
                self.scan_letters_after_punct_prefix(next);
                if C::LETTER_MODE == LetterMode::CamelCase {
                    self.take_contraction();
                } else {
                    self.handle_post_letters();
                }
            } else if next >= 0x80 {
                let (ch, _) = decode_utf8(self.bytes, self.pos);
                if Self::is_letter_char(ch) {
                    if C::LETTER_MODE == LetterMode::CamelCase {
                        self.scan_lowercase();
                        self.take_contraction();
                    } else {
                        self.scan_letters();
                    }
                } else {
                    self.scan_punct();
                }
            } else {
                self.scan_punct();
            }
        }
    }

    /// Scan a piece that starts with a non-ASCII character.
    fn scan_unicode_piece(&mut self)
        requires
            old(self).wf(),
            old(self).pos < old(self).len,
            old(self).bytes@[old(self).pos as int] >= 0x80,
        ensures
            final(self).moved(
                *old(self),
                rules::unicode_piece_end::<C>(old(self).bytes@, old(self).pos as int),
            ),
            final(self).pos > old(self).pos,
    {
        let (ch, cl) = decode_utf8(self.bytes, self.pos);
        if Self::is_letter_char(ch) {
            self.pos = self.pos + cl;
            if C::LETTER_MODE == LetterMode::CamelCase {
                if ch.is_lowercase() {
                    self.scan_lowercase();
                } else {
                    self.scan_upper_then_lower();
                }
            } else {
                self.scan_letters();
            }
            self.handle_post_letters();
        } else if ch.is_numeric() {
            self.pos = self.pos + cl;
            self.scan_digits();
        } else if ch.is_whitespace() {
            self.scan_whitespace();
        } else if C::PUNCT_CLASS == PunctClass::PunctSymbolOnly && !is_punct_or_symbol(ch) {
            self.pos = self.pos + cl;
            self.scan_format_piece();
        } else {
            self.pos = self.pos + cl;
            self.scan_symbol_piece();
        }
    }

    /// Scan a piece that starts with some other ASCII character.
    fn scan_ascii_punct_piece(&mut self)
        requires
            old(self).wf(),
            old(self).pos < old(self).len,
            old(self).bytes@[old(self).pos as int] < 0x80,
        ensures
            final(self).moved(
                *old(self),
                rules::ascii_punct_piece_end::<C>(old(self).bytes@, old(self).pos as int),
            ),
            final(self).pos > old(self).pos,
    {
        proof {
            rules::lemma_here(self.bytes@, self.pos as int);
        }
        self.pos = self.pos + 1;
        if C::PUNCT_PREFIX_MODE == PunctPrefixMode::SpaceOnly {
            // GPT-2, SmolLM: punct does not prefix letters.
            self.scan_punct();
        } else if self.pos < self.len {
            let next: u8 = self.bytes[self.pos];
            if is_ascii_letter(next) {
                self.scan_letters_after_punct_prefix(next);
                if C::LETTER_MODE == LetterMode::CamelCase {
                    self.take_contraction();
                } else {
                    self.handle_post_letters();
                }
            } else if next >= 0x80 {
                let (ch, _) = decode_utf8(self.bytes, self.pos);
                if Self::is_letter_char(ch) {
                    self.scan_prefixed_unicode_word();
                } else {
                    self.scan_punct();
                }
            } else {
                self.scan_punct();
            }
        }
    }

    /// Move the scanner behind the piece that starts at its position.
    fn advance(&mut self)
        requires
            old(self).wf(),
            old(self).pos < old(self).len,
        ensures
            final(self).moved(
                *old(self),
                rules::piece_end::<C>(old(self).bytes@, old(self).pos as int),
            ),
            final(self).pos > old(self).pos,
    {
        proof {
            rules::lemma_here(self.bytes@, self.pos as int);
        }
        let first: u8 = self.bytes[self.pos];
        if is_ascii_letter(first) {
            self.pos = self.pos + 1;
            self.do_letter_scan(first);
            self.handle_post_letters();
        } else if first == 0x27 {
            self.scan_apostrophe_piece();
        } else if is_digit(first) {
            self.pos = self.pos + 1;
            self.scan_digits();
        } else if first == 0x20 || first == 0x09 {
            self.scan_blank_piece();
        } else if first == 0x0a || first == 0x0d {
            self.scan_newline_piece();
        } else if first >= 0x80 {
            self.scan_unicode_piece();
        } else {
            self.scan_ascii_punct_piece();
        }
    }

    /// The next piece, or `None` at the end of the text.
    pub fn next(&mut self) -> (r: Option<&'a str>)
        requires
            old(self).wf(),
        ensures
            final(self).wf(),
            final(self).text() == old(self).text(),
            old(self).position() <= old(self).text().len(),
            old(self).position() == old(self).text().len() ==> r is None && *final(self) == *old(
                self,
            ),
            old(self).position() < old(self).text().len() ==> {
                &&& r is Some
                &&& old(self).position() < final(self).position() <= old(self).text().len()
                &&& final(self).position() == rules::piece_end::<C>(
                    old(self).text(),
                    old(self).position(),
                )
                &&& r->0.spec_bytes() == old(self).text().subrange(
                    old(self).position(),
                    final(self).position(),
                )
            },
    {
        if self.pos >= self.len {
            return None;
        }
        let start: usize = self.pos;
        self.advance();
        Some(self.emit(start))
    }

    /// The pieces that are left, in order.
    pub fn pieces(self) -> (r: Vec<&'a str>)
        requires
            self.wf(),
        ensures
            rules::are_pieces(r@, self.text(), rules::spans::<C>(self.text(), self.position())),
    {
        let mut scanner = self;
        let mut out: Vec<&'a str> = Vec::new();
        let ghost all = rules::spans::<C>(self.text(), self.position());
        let ghost mut done: Seq<(int, int)> = Seq::empty();
        while scanner.pos < scanner.len
            invariant
                scanner.wf(),
                scanner.text() == self.text(),
                all == done + rules::spans::<C>(self.text(), scanner.position()),
                rules::are_pieces(out@, self.text(), done),
            decreases scanner.len - scanner.pos,
        {
            let ghost p = scanner.position();
            if let Some(piece) = scanner.next() {
                proof {
                    done = done.push((p, scanner.position()));
                    assert(all =~= done + rules::spans::<C>(self.text(), scanner.position()));
                }
                out.push(piece);
            }
        }
        assert(rules::spans::<C>(self.text(), scanner.position()) =~= Seq::empty());
        assert(all =~= done);
        out
    }
}

} // verus!
