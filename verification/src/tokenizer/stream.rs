//! Tokens one at a time, and counting them up to a limit.
use crate::encoder::backtracking;
use crate::encoder::stream;
use crate::encoder::EncoderIter;
use crate::normalizer::cow_str;
use crate::pretok;
use crate::pretok::PretokenizerIter;
use crate::pretokie::rules;
use crate::tokenizer::model;
use crate::tokenizer::Tokenizer;
use crate::types::TokenId;
use vstd::prelude::*;
use vstd::string::*;

verus! {

/// The stream of the piece in hand, with its text, and the pieces behind it.
pub struct Flow {
    pub current: Option<(Seq<u8>, stream::Stream)>,
    pub left: Seq<(int, int)>,
}

/// The flow with the next piece in hand.
pub open spec fn next_piece(r: backtracking::Rules, b: Seq<u8>, f: Flow) -> Flow {
    let piece = b.subrange(f.left[0].0, f.left[0].1);
    Flow {
        current: Some((piece, stream::start(r, piece))),
        left: f.left.subrange(1, f.left.len() as int),
    }
}

/// The flow after its piece in hand has been asked for a token.
pub open spec fn asked(r: backtracking::Rules, f: Flow) -> Flow {
    match f.current {
        Some((c, s)) => Flow {
            current: Some((c, stream::behind(stream::filled(r, c, s)))),
            ..f
        },
        None => f,
    }
}

/// The token that the piece in hand gives.
pub open spec fn given(r: backtracking::Rules, f: Flow) -> Option<TokenId> {
    match f.current {
        Some((c, s)) => stream::front(stream::filled(r, c, s)),
        None => None,
    }
}

/// The next token of a flow, and the flow behind it: pieces that give no more
/// token make way for the next.
pub open spec fn flow_next(r: backtracking::Rules, b: Seq<u8>, f: Flow) -> (Option<TokenId>, Flow)
    decreases f.left.len(),
{
    if given(r, f) is Some || f.left.len() == 0 {
        (given(r, f), asked(r, f))
    } else {
        flow_next(r, b, next_piece(r, b, f))
    }
}

/// Iterator over the tokens of a tokenizer.
pub struct TokenizeIter<'a> {
    tokenizer: &'a Tokenizer,
    pretokens: Option<PretokenizerIter<'a>>,
    current: Option<EncoderIter<'a>>,
}

impl<'a> TokenizeIter<'a> {
    /// What the search goes by.
    pub closed spec fn rules(&self) -> backtracking::Rules {
        self.tokenizer.pipeline().rules
    }

    /// The text that the pieces are cut from.
    pub closed spec fn text(&self) -> Seq<u8> {
        match self.pretokens {
            Some(it) => it.text(),
            None => seq![],
        }
    }

    /// The flow of tokens.
    pub closed spec fn flow(&self) -> Flow {
        Flow {
            current: match self.current {
                Some(it) => Some((it.text(), it.state())),
                None => None,
            },
            left: match self.pretokens {
                Some(it) => it.left(),
                None => seq![],
            },
        }
    }

    /// The parts fit each other.
    pub closed spec fn wf(&self) -> bool {
        &&& self.tokenizer.wf()
        &&& self.pretokens matches Some(it) ==> it.wf() && model::pieces_searchable(
            self.tokenizer.pipeline().rules.vocab,
            it.text(),
            it.left(),
        )
        &&& self.current matches Some(it) ==> it.wf() && it.rules()
            == self.tokenizer.pipeline().rules
    }

    /// The next token.
    pub fn next(&mut self) -> (r: Option<TokenId>)
        requires
            old(self).wf(),
        ensures
            final(self).wf(),
            final(self).rules() == old(self).rules(),
            final(self).text() == old(self).text(),
            (r, final(self).flow()) == flow_next(
                old(self).rules(),
                old(self).text(),
                old(self).flow(),
            ),
    {
        let ghost rules = self.rules();
        let ghost b = self.text();
        let ghost f = self.flow();
        loop
            invariant
                self.wf(),
                self.rules() == rules,
                self.text() == b,
                rules == old(self).rules(),
                b == old(self).text(),
                f == old(self).flow(),
                flow_next(rules, b, f) == flow_next(rules, b, self.flow()),
            decreases self.flow().left.len(),
        {
            let ghost here = self.flow();
            let mut token: Option<TokenId> = None;
            if let Some(it) = &mut self.current {
                token = it.next();
            }
            assert(token == given(rules, here));
            assert(self.flow() == asked(rules, here));
            if token.is_some() {
                return token;
            }
            let mut piece: Option<&'a str> = None;
            if let Some(it) = &mut self.pretokens {
                piece = it.next();
            }
            match piece {
                Some(p) => {
                    let bytes = p.as_bytes();
                    assert(bytes@ == b.subrange(here.left[0].0, here.left[0].1));
                    self.current = Some(self.tokenizer.encoder().encode_iter(bytes));
                    assert(self.flow() == next_piece(rules, b, here));
                },
                None => {
                    assert(self.flow().left =~= here.left);
                    return None;
                },
            }
        }
    }
}

/// How a count stands to a limit.
#[derive(Clone, Copy, Debug, PartialEq, Eq, Structural)]
pub enum CountOrder {
    Less,
    Equal,
    Greater,
}

/// How a number of tokens stands to a limit.
pub open spec fn order_of(n: nat, limit: nat) -> CountOrder {
    if n < limit {
        CountOrder::Less
    } else if n == limit {
        CountOrder::Equal
    } else {
        CountOrder::Greater
    }
}

/// Lazy token count. It can be compared once.
pub struct TokenCount<'a> {
    source: Option<(&'a Tokenizer, &'a str)>,
}

impl<'a> TokenCount<'a> {
    /// The number of tokens.
    pub closed spec fn total(&self) -> nat {
        let (t, s) = self.source->0;
        model::raw_tokens(t.pipeline(), s@, true).len()
    }

    /// The count has not been compared yet.
    pub closed spec fn fresh(&self) -> bool {
        self.source is Some
    }

    /// The tokenizer can encode the text.
    pub closed spec fn wf(&self) -> bool {
        self.source matches Some((t, s)) ==> t.wf() && model::encodable(t.pipeline(), s@, true)
    }

    /// Compare the count with a limit. Where the text is encoded piece by
    /// piece, no piece behind the limit is encoded. `None` where the count has
    /// been compared before.
    pub fn compare(&mut self, limit: usize) -> (r: Option<CountOrder>)
        requires
            old(self).wf(),
        ensures
            final(self).wf(),
            !final(self).fresh(),
            r == if old(self).fresh() {
                Some(order_of(old(self).total(), limit as nat))
            } else {
                None
            },
    {
        let mut taken: Option<(&'a Tokenizer, &'a str)> = None;
        std::mem::swap(&mut taken, &mut self.source);
        let (tokenizer, text) = match taken {
            Some(t) => t,
            None => return None,
        };
        match tokenizer.count_up_to(text, limit) {
            Some(n) => {
                if n == limit {
                    Some(CountOrder::Equal)
                } else {
                    Some(CountOrder::Less)
                }
            },
            None => Some(CountOrder::Greater),
        }
    }
}

/// The first pieces of a text have no more tokens than all of them.
proof fn lemma_fewer_pieces(
    r: backtracking::Rules,
    b: Seq<u8>,
    spans: Seq<(int, int)>,
    workers: int,
    i: int,
)
    requires
        0 <= i <= spans.len(),
    ensures
        model::piece_tokens(r, b, spans.subrange(0, i), workers).len() <= model::piece_tokens(
            r,
            b,
            spans,
            workers,
        ).len(),
    decreases spans.len(),
{
    if i < spans.len() {
        lemma_fewer_pieces(r, b, spans.drop_last(), workers, i);
        assert(spans.drop_last().subrange(0, i) =~= spans.subrange(0, i));
    } else {
        assert(spans.subrange(0, i) =~= spans);
    }
}

impl Tokenizer {
    /// Streaming iterator over encoded tokens. The text is not normalized, and
    /// added tokens are not looked for.
    pub fn encode_iter<'a>(&'a self, text: &'a str) -> (r: TokenizeIter<'a>)
        requires
            self.wf(),
            model::stream_fits(self.pipeline(), text.spec_bytes()),
        ensures
            r.wf(),
            r.rules() == self.pipeline().rules,
            self.pipeline().pretok matches Some(p) ==> r.text() == text.spec_bytes()
                && r.flow().current is None && r.flow().left == p.spans(text.spec_bytes()),
            self.pipeline().pretok is None ==> r.flow().left.len() == 0 && r.flow().current == Some(
                (
                    text.spec_bytes(),
                    stream::start(self.pipeline().rules, text.spec_bytes()),
                ),
            ),
    {
        match self.pretokenizer {
            Some(p) => TokenizeIter { tokenizer: self, pretokens: Some(p.split(text)), current: None },
            None => {
                let bytes = text.as_bytes();
                TokenizeIter {
                    tokenizer: self,
                    pretokens: None,
                    current: Some(self.encoder.encode_iter(bytes)),
                }
            },
        }
    }

    /// Streaming iterator over encoded tokens from bytes (bypasses the
    /// pretokenizer).
    pub fn encode_bytes_iter<'a>(&'a self, bytes: &'a [u8]) -> (r: EncoderIter<'a>)
        requires
            self.wf(),
            backtracking::searchable(self.pipeline().rules.vocab, bytes@),
        ensures
            r.wf(),
            r.rules() == self.pipeline().rules,
            r.text() == bytes@,
            r.state() == stream::start(self.pipeline().rules, bytes@),
    {
        self.encoder.encode_iter(bytes)
    }

    /// The number of tokens of a text, if it is no more than the limit.
    fn count_up_to(&self, text: &str, limit: usize) -> (n: Option<usize>)
        requires
            self.wf(),
            model::encodable(self.pipeline(), text@, true),
        ensures
            match n {
                Some(n) => n <= limit && n == model::raw_tokens(
                    self.pipeline(),
                    text@,
                    true,
                ).len(),
                None => model::raw_tokens(self.pipeline(), text@, true).len() > limit,
            },
    {
        let added = self.raw_added_matcher.is_some() || self.norm_added_matcher.is_some();
        let short = text.as_bytes().len() < model::PARALLEL_CHUNK_THRESHOLD;
        match &self.pretokenizer {
            Some(p) if !added && short => {
                let ghost r = self.pipeline().rules;
                let ghost w = self.pipeline().workers;
                let normalized = self.normalizer.normalize(text);
                let t: &str = cow_str(&normalized);
                let ghost b = t.spec_bytes();
                let ghost all = p.spans(b);
                let pieces = p.for_each_piece(t);
                let mut count: usize = 0;
                let mut i: usize = 0;
                assert(all.subrange(0, 0) =~= seq![]);
                while i < pieces.len()
                    invariant
                        self.wf(),
                        r == self.pipeline().rules,
                        w == self.pipeline().workers,
                        model::pieces_fit(r.vocab, b, all, w),
                        i <= pieces.len(),
                        rules::are_pieces(pieces@, b, all),
                        count <= limit,
                        count == model::piece_tokens(r, b, all.subrange(0, i as int), w).len(),
                        model::raw_tokens(self.pipeline(), text@, true) == model::piece_tokens(
                            r,
                            b,
                            all,
                            w,
                        ),
                    decreases pieces.len() - i,
                {
                    let piece: &str = pieces[i];
                    assert(piece.spec_bytes() == b.subrange(all[i as int].0, all[i as int].1));
                    let found = self.encoder.encode(piece.as_bytes(), self.workers);
                    proof {
                        let s = all.subrange(0, i + 1);
                        assert(s.drop_last() =~= all.subrange(0, i as int));
                        assert(s.last() == all[i as int]);
                        lemma_fewer_pieces(r, b, all, w, i + 1);
                    }
                    if found.len() > limit - count {
                        return None;
                    }
                    count = count + found.len();
                    i = i + 1;
                }
                assert(all.subrange(0, all.len() as int) =~= all);
                Some(count)
            },
            _ => {
                let n: usize = self.count_tokens(text);
                if n <= limit {
                    Some(n)
                } else {
                    None
                }
            },
        }
    }

    /// Lazy token count with early termination for comparisons. It counts the
    /// tokens that [`Self::count_tokens`] counts.
    pub fn token_count<'a>(&'a self, text: &'a str) -> (r: TokenCount<'a>)
        requires
            self.wf(),
            model::encodable(self.pipeline(), text@, true),
        ensures
            r.wf(),
            r.fresh(),
            r.total() == model::raw_tokens(self.pipeline(), text@, true).len(),
    {
        TokenCount { source: Some((self, text)) }
    }
}

} // verus!
