//! Tokens one at a time.
//!
//! A stream searches ahead until it holds a few tokens, then hands out the
//! first of them. What has been handed out is not taken back.
use crate::encoder::backtracking;
use crate::encoder::backtracking::{BacktrackingBytePairEncoder, Bitfield, Rules};
use crate::types::TokenId;
use std::collections::VecDeque;
use vstd::prelude::*;
use vstd::slice::*;

verus! {

/// How many tokens a stream holds before it hands one out.
pub const ENCODE_ITER_BUFFER_SIZE: usize = 8;

/// A stream: how far it has searched, the tokens that it holds, the positions
/// from which the search failed, and the token to try next.
#[verifier::ext_equal]
pub struct Stream {
    pub pos: int,
    pub buffer: Seq<TokenId>,
    pub dead: Set<int>,
    pub cand: Option<int>,
}

/// The stream before the first token.
pub open spec fn start(r: Rules, b: Seq<u8>) -> Stream {
    Stream {
        pos: 0,
        buffer: seq![],
        dead: Set::empty(),
        cand: backtracking::next_token(r.vocab, b),
    }
}

/// One step of the search: the next token that fits is taken; where none
/// does, the position is dead, and the last token held gives way.
pub open spec fn step(r: Rules, b: Seq<u8>, s: Stream) -> Stream {
    match s.cand {
        None => s,
        Some(t) => match backtracking::fitting(
            r,
            b,
            s.pos,
            backtracking::top(s.buffer),
            t,
            s.dead,
        ) {
            Some(f) => {
                let end = s.pos + r.vocab[f].len();
                Stream {
                    pos: end,
                    buffer: s.buffer.push(f as u32),
                    dead: s.dead,
                    cand: backtracking::next_token(r.vocab, b.subrange(end, b.len() as int)),
                }
            },
            None => if s.buffer.len() == 0 {
                Stream { dead: s.dead.insert(s.pos), cand: None, ..s }
            } else {
                let l = s.buffer.last() as int;
                Stream {
                    pos: s.pos - r.vocab[l].len(),
                    buffer: s.buffer.drop_last(),
                    dead: s.dead.insert(s.pos),
                    cand: Some(l),
                }
            },
        },
    }
}

/// The stream holds enough tokens, or has no more to try.
pub open spec fn stops(s: Stream) -> bool {
    s.buffer.len() >= ENCODE_ITER_BUFFER_SIZE || s.cand is None
}

/// `n` steps of the search.
pub open spec fn steps(r: Rules, b: Seq<u8>, s: Stream, n: nat) -> Stream
    decreases n,
{
    if n == 0 {
        s
    } else {
        step(r, b, steps(r, b, s, (n - 1) as nat))
    }
}

/// The stream stops after `n` steps and not before.
pub open spec fn fills(r: Rules, b: Seq<u8>, s: Stream, n: nat) -> bool {
    &&& stops(steps(r, b, s, n))
    &&& forall|m: nat| m < n ==> !stops(#[trigger] steps(r, b, s, m))
}

/// The stream where it stops.
pub open spec fn filled(r: Rules, b: Seq<u8>, s: Stream) -> Stream {
    steps(r, b, s, choose|n: nat| fills(r, b, s, n))
}

/// The token that a stream hands out.
pub open spec fn front(s: Stream) -> Option<TokenId> {
    if s.buffer.len() == 0 {
        None
    } else {
        Some(s.buffer[0])
    }
}

/// The stream without the token that it hands out.
pub open spec fn behind(s: Stream) -> Stream {
    if s.buffer.len() == 0 {
        s
    } else {
        Stream { buffer: s.buffer.subrange(1, s.buffer.len() as int), ..s }
    }
}

/// A stream stops only once.
proof fn lemma_filled(r: Rules, b: Seq<u8>, s: Stream, n: nat)
    requires
        fills(r, b, s, n),
    ensures
        filled(r, b, s) == steps(r, b, s, n),
{
    let m = choose|n: nat| fills(r, b, s, n);
    assert(fills(r, b, s, m));
    if m < n {
        assert(!stops(steps(r, b, s, m)));
    }
    if n < m {
        assert(!stops(steps(r, b, s, n)));
    }
}

// ---- what a stream hands out ----

/// What has been handed out and what is held are the tokens in front of the
/// search, which ends as the search of the whole text does.
pub open spec fn agrees(r: Rules, b: Seq<u8>, handed: Seq<TokenId>, s: Stream) -> bool {
    let total = backtracking::search(
        r,
        b,
        0,
        None,
        backtracking::next_token(r.vocab, b),
        Set::empty(),
    );
    let stack = handed + s.buffer;
    match s.cand {
        Some(t) => {
            &&& backtracking::stack_ok(r, b, stack, s.pos, s.dead)
            &&& 0 <= t < r.vocab.len()
            &&& 0 < r.vocab[t].len()
            &&& s.pos + r.vocab[t].len() <= b.len()
            &&& b.subrange(s.pos, s.pos + r.vocab[t].len()) == r.vocab[t]
            &&& total == backtracking::finish(
                r,
                b,
                stack,
                s.pos,
                backtracking::search(r, b, s.pos, backtracking::top(stack), Some(t), s.dead),
            )
        },
        None => stack == backtracking::bpe(r, b),
    }
}

/// The start of a stream agrees with the encoding.
pub proof fn law_stream_starts(r: Rules, b: Seq<u8>)
    ensures
        agrees(r, b, seq![], start(r, b)),
{
    let next = backtracking::next_token(r.vocab, b);
    let total = backtracking::search(r, b, 0, None, next, Set::empty());
    backtracking::lemma_next_token(r.vocab, b);
    assert(Seq::<TokenId>::empty() + Seq::<TokenId>::empty() =~= seq![]);
    match next {
        Some(t) => {
            if let Some(found) = total.1 {
                assert(Seq::<TokenId>::empty() + found =~= found);
            }
        },
        None => {
            assert(total.1 is None);
            assert(backtracking::bpe(r, b) =~= seq![]);
        },
    }
}

/// What a search finds by way of its first fitting token.
proof fn lemma_search_by_fit(
    r: Rules,
    b: Seq<u8>,
    pos: int,
    last: Option<int>,
    t: int,
    dead: Set<int>,
)
    requires
        0 <= t < r.vocab.len(),
        0 <= pos,
        0 < r.vocab[t].len(),
        pos + r.vocab[t].len() <= b.len(),
        b.subrange(pos, pos + r.vocab[t].len()) == r.vocab[t],
    ensures
        ({
            let found = backtracking::search(r, b, pos, last, Some(t), dead);
            match backtracking::fitting(r, b, pos, last, t, dead) {
                Some(f) => {
                    &&& 0 <= f < r.vocab.len()
                    &&& 0 < r.vocab[f].len()
                    &&& pos + r.vocab[f].len() <= b.len()
                    &&& b.subrange(pos, pos + r.vocab[f].len()) == r.vocab[f]
                    &&& !dead.contains(pos + r.vocab[f].len())
                    &&& backtracking::follows(r, last, f)
                    &&& found == backtracking::search(r, b, pos, last, Some(f), dead)
                },
                None => found == (dead.insert(pos), None::<Seq<TokenId>>),
            }
        }),
    decreases r.vocab[t].len(),
{
    let end = pos + r.vocab[t].len();
    if dead.contains(end) || !backtracking::follows(r, last, t) {
        backtracking::lemma_shorter(r.vocab, t);
        match backtracking::shorter_token(r.vocab, t) {
            Some(s) => {
                let (v, w) = (r.vocab[t], r.vocab[s]);
                assert(v.subrange(0, w.len() as int) == w);
                assert(b.subrange(pos, pos + w.len()) =~= v.subrange(0, w.len() as int));
                lemma_search_by_fit(r, b, pos, last, s, dead);
            },
            None => {
                assert(backtracking::search(r, b, pos, last, None, dead) == (
                    dead.insert(pos),
                    None::<Seq<TokenId>>,
                ));
            },
        }
    }
}

/// A step keeps the agreement, as long as the stream holds a token or has
/// handed out none.
pub proof fn law_stream_steps(r: Rules, b: Seq<u8>, handed: Seq<TokenId>, s: Stream)
    requires
        backtracking::searchable(r.vocab, b),
        r.vocab.len() <= u32::MAX,
        agrees(r, b, handed, s),
        s.buffer.len() > 0 || handed.len() == 0,
    ensures
        agrees(r, b, handed, step(r, b, s)),
{
    if let Some(t) = s.cand {
        let stack = handed + s.buffer;
        let next = step(r, b, s);
        let last = backtracking::top(s.buffer);
        assert(last == backtracking::top(stack)) by {
            if s.buffer.len() > 0 {
                assert(stack.last() == s.buffer.last());
            } else {
                assert(stack =~= seq![]);
            }
        }
        lemma_search_by_fit(r, b, s.pos, last, t, s.dead);
        let total = backtracking::search(
            r,
            b,
            0,
            None,
            backtracking::next_token(r.vocab, b),
            Set::empty(),
        );
        match backtracking::fitting(r, b, s.pos, last, t, s.dead) {
            Some(f) => {
                let end = s.pos + r.vocab[f].len();
                let rest = b.subrange(end, b.len() as int);
                let fit = f as u32;
                assert(handed + next.buffer =~= stack.push(fit));
                assert(stack.push(fit).drop_last() =~= stack);
                assert(backtracking::stack_ok(r, b, stack.push(fit), end, s.dead));
                backtracking::lemma_next_token(r.vocab, rest);
                if end == b.len() {
                    assert(stack + seq![fit] =~= stack.push(fit));
                    assert(next.cand is None);
                    assert(total.1 == Some(stack.push(fit)));
                } else {
                    backtracking::lemma_stack_led(r, b, stack.push(fit), end, s.dead);
                    let deeper = backtracking::search(
                        r,
                        b,
                        end,
                        Some(f),
                        backtracking::next_token(r.vocab, rest),
                        s.dead,
                    );
                    if let Some(found) = deeper.1 {
                        assert(stack + (seq![fit] + found) =~= stack.push(fit) + found);
                    }
                    assert(total == backtracking::finish(r, b, stack.push(fit), end, deeper));
                    let k = next.cand->0;
                    assert(rest.subrange(0, r.vocab[k].len() as int) =~= b.subrange(
                        end,
                        end + r.vocab[k].len(),
                    ));
                }
            },
            None => {
                if s.buffer.len() == 0 {
                    assert(stack =~= seq![]);
                    assert(total.1 is None);
                    assert(handed + next.buffer =~= backtracking::bpe(r, b));
                } else {
                    let l = s.buffer.last() as int;
                    assert(handed + next.buffer =~= stack.drop_last());
                    assert(stack.last() == s.buffer.last());
                    backtracking::lemma_stack_ok_insert(
                        r,
                        b,
                        stack.drop_last(),
                        s.pos - r.vocab[l].len(),
                        s.dead,
                        s.pos,
                    );
                }
            },
        }
    }
}

/// Handing out a token keeps the agreement.
pub proof fn law_stream_hands_out(r: Rules, b: Seq<u8>, handed: Seq<TokenId>, s: Stream)
    requires
        agrees(r, b, handed, s),
        s.buffer.len() > 0,
    ensures
        agrees(r, b, handed.push(front(s)->0), behind(s)),
{
    assert(handed.push(s.buffer[0]) + behind(s).buffer =~= handed + s.buffer);
}

/// What an agreeing stream has handed out at its end is the encoding.
pub proof fn law_stream_ends(r: Rules, b: Seq<u8>, handed: Seq<TokenId>, s: Stream)
    requires
        agrees(r, b, handed, s),
        s.cand is None,
        s.buffer.len() == 0,
    ensures
        handed == backtracking::bpe(r, b),
{
    assert(handed + s.buffer =~= handed);
}

// ---- the iterator ----

/// The tokens held stand in the text up to `pos`, tokens lead to each of the
/// places where one of them starts or ends, and none of these is dead.
spec fn held_ok(r: Rules, b: Seq<u8>, held: Seq<TokenId>, pos: int, dead: Set<int>) -> bool
    decreases held.len(),
{
    &&& 0 <= pos <= b.len()
    &&& !dead.contains(pos)
    &&& backtracking::led_to(r.vocab, b, pos)
    &&& held.len() == 0 || {
        let t = held.last() as int;
        &&& 0 <= t < r.vocab.len()
        &&& 0 < r.vocab[t].len() <= pos
        &&& b.subrange(pos - r.vocab[t].len(), pos) == r.vocab[t]
        &&& held_ok(r, b, held.drop_last(), pos - r.vocab[t].len(), dead)
    }
}

proof fn lemma_held_insert(
    r: Rules,
    b: Seq<u8>,
    held: Seq<TokenId>,
    pos: int,
    dead: Set<int>,
    p: int,
)
    requires
        held_ok(r, b, held, pos, dead),
        pos < p,
    ensures
        held_ok(r, b, held, pos, dead.insert(p)),
    decreases held.len(),
{
    if held.len() > 0 {
        lemma_held_insert(
            r,
            b,
            held.drop_last(),
            pos - r.vocab[held.last() as int].len(),
            dead,
            p,
        );
    }
}

proof fn lemma_held_behind(r: Rules, b: Seq<u8>, held: Seq<TokenId>, pos: int, dead: Set<int>)
    requires
        held_ok(r, b, held, pos, dead),
        held.len() > 0,
    ensures
        held_ok(r, b, held.subrange(1, held.len() as int), pos, dead),
    decreases held.len(),
{
    let rest = held.subrange(1, held.len() as int);
    if rest.len() > 0 {
        let t = held.last() as int;
        lemma_held_behind(r, b, held.drop_last(), pos - r.vocab[t].len(), dead);
        assert(rest.drop_last() =~= held.drop_last().subrange(1, held.len() - 1));
    }
}

/// Streaming iterator over encoded tokens.
pub struct EncodeIter<'a> {
    encoder: &'a BacktrackingBytePairEncoder,
    text: &'a [u8],
    pos: usize,
    buffer: VecDeque<TokenId>,
    alive: Bitfield,
    next_token: Option<TokenId>,
    dead: Ghost<Set<int>>,
}

impl<'a> EncodeIter<'a> {
    /// What the search goes by.
    pub closed spec fn rules(&self) -> Rules {
        self.encoder.rules()
    }

    /// The text.
    pub closed spec fn text(&self) -> Seq<u8> {
        self.text@
    }

    /// The stream.
    pub closed spec fn state(&self) -> Stream {
        Stream {
            pos: self.pos as int,
            buffer: self.buffer@,
            dead: self.dead@,
            cand: match self.next_token {
                Some(t) => Some(t as int),
                None => None,
            },
        }
    }

    /// The parts of the stream fit the text.
    pub closed spec fn wf(&self) -> bool {
        let r = self.encoder.rules();
        let b = self.text@;
        &&& self.encoder.wf()
        &&& backtracking::searchable(r.vocab, b)
        &&& self.alive.wf()
        &&& self.alive.end() == b.len()
        &&& forall|i: int| self.dead@.contains(i) ==> 0 <= i <= b.len()
        &&& forall|i: int| 0 <= i <= b.len() ==> self.alive.has(i) == !self.dead@.contains(i)
        &&& self.next_token matches Some(t) ==> {
            &&& self.encoder.has(t)
            &&& 0 < r.vocab[t as int].len()
            &&& self.pos + r.vocab[t as int].len() <= b.len()
            &&& b.subrange(self.pos as int, self.pos + r.vocab[t as int].len())
                == r.vocab[t as int]
            &&& held_ok(r, b, self.buffer@, self.pos as int, self.dead@)
        }
    }

    /// A stream over the tokens of a text.
    pub fn new(encoder: &'a BacktrackingBytePairEncoder, text: &'a [u8]) -> (r: Self)
        requires
            encoder.wf(),
            backtracking::searchable(encoder.vocab(), text@),
        ensures
            r.wf(),
            r.rules() == encoder.rules(),
            r.text() == text@,
            r.state() == start(encoder.rules(), text@),
    {
        proof {
            assert(text@.subrange(0, text@.len() as int) =~= text@);
            assert(backtracking::led_to(encoder.vocab(), text@, 0));
        }
        let next_token = encoder.next_match(text);
        proof {
            backtracking::lemma_next_token(encoder.vocab(), text@);
        }
        let r = EncodeIter {
            encoder,
            text,
            pos: 0,
            buffer: VecDeque::new(),
            alive: Bitfield::new(text.len()),
            next_token,
            dead: Ghost(Set::empty()),
        };
        assert(r.state() =~= start(encoder.rules(), text@));
        r
    }

    /// One step of the search.
    fn encode_one_token(&mut self)
        requires
            old(self).wf(),
            old(self).state().cand is Some,
        ensures
            final(self).wf(),
            final(self).rules() == old(self).rules(),
            final(self).text() == old(self).text(),
            final(self).state() == step(old(self).rules(), old(self).text(), old(self).state()),
            final(self).dead@.finite() && old(self).dead@.finite(),
            final(self).dead@.len() <= final(self).text().len() + 1,
            final(self).dead@.len() > old(self).dead@.len() || (final(self).dead@
                == old(self).dead@ && final(self).pos > old(self).pos),
            final(self).pos <= final(self).text().len(),
    {
        let ghost r = self.encoder.rules();
        let ghost b = self.text@;
        let ghost before = self.state();
        let n: usize = self.text.len();
        let held: usize = self.buffer.len();
        let last: Option<TokenId> = if held == 0 {
            None
        } else {
            Some(self.buffer[held - 1])
        };
        let token: TokenId = self.next_token.unwrap();
        proof {
            backtracking::lemma_dead_bound(self.dead@, n as int);
        }
        match self.encoder.first_fit(
            Ghost(b),
            Ghost(self.dead@),
            &self.alive,
            self.pos,
            last,
            token,
        ) {
            Some(fit) => {
                let end: usize = self.pos + self.encoder.token_len(fit);
                self.buffer.push_back(fit);
                let rest = slice_subrange(self.text, end, n);
                proof {
                    assert(before.buffer.push(fit).drop_last() =~= before.buffer);
                    assert(backtracking::stands(r.vocab, b, before.pos, fit as int));
                    assert(backtracking::led_to(r.vocab, b, end as int));
                    assert(held_ok(r, b, before.buffer.push(fit), end as int, self.dead@));
                    backtracking::lemma_next_token(r.vocab, rest@);
                }
                self.next_token = self.encoder.next_match(rest);
                self.pos = end;
                proof {
                    if let Some(k) = self.next_token {
                        assert(rest@.subrange(0, r.vocab[k as int].len() as int) =~= b.subrange(
                            end as int,
                            end + r.vocab[k as int].len(),
                        ));
                    }
                    assert(self.state() =~= step(r, b, before));
                }
            },
            None => {
                self.alive.clear(self.pos);
                proof {
                    let p = before.pos;
                    assert(before.dead.insert(p).len() == before.dead.len() + 1);
                    if before.buffer.len() > 0 {
                        let t = before.buffer.last() as int;
                        lemma_held_insert(
                            r,
                            b,
                            before.buffer.drop_last(),
                            p - r.vocab[t].len(),
                            before.dead,
                            p,
                        );
                    }
                    backtracking::lemma_dead_bound(before.dead.insert(p), n as int);
                    self.dead@ = before.dead.insert(p);
                }
                match self.buffer.pop_back() {
                    Some(l) => {
                        assert(self.buffer@ =~= before.buffer.drop_last());
                        self.pos = self.pos - self.encoder.token_len(l);
                        self.next_token = Some(l);
                    },
                    None => {
                        self.next_token = None;
                    },
                }
                assert(self.state() =~= step(r, b, before));
            },
        }
    }

    /// The next token.
    pub fn next(&mut self) -> (r: Option<TokenId>)
        requires
            old(self).wf(),
        ensures
            final(self).wf(),
            final(self).rules() == old(self).rules(),
            final(self).text() == old(self).text(),
            r == front(filled(old(self).rules(), old(self).text(), old(self).state())),
            final(self).state() == behind(
                filled(old(self).rules(), old(self).text(), old(self).state()),
            ),
    {
        let ghost r = self.rules();
        let ghost b = self.text();
        let ghost s = self.state();
        let ghost mut n: nat = 0;
        let len: usize = self.text.len();
        proof {
            backtracking::lemma_dead_bound(self.dead@, b.len() as int);
        }
        while self.buffer.len() < ENCODE_ITER_BUFFER_SIZE && self.next_token.is_some()
            invariant
                self.wf(),
                self.rules() == r,
                self.text() == b,
                len == b.len(),
                self.state() == steps(r, b, s, n),
                self.dead@.finite(),
                self.dead@.len() <= b.len() + 1,
                forall|m: nat| m < n ==> !stops(#[trigger] steps(r, b, s, m)),
            decreases b.len() + 1 - self.dead@.len(), b.len() - self.pos,
        {
            assert(!stops(steps(r, b, s, n)));
            self.encode_one_token();
            proof {
                n = n + 1;
                assert(steps(r, b, s, n) == step(r, b, steps(r, b, s, (n - 1) as nat)));
            }
        }
        proof {
            assert(fills(r, b, s, n));
            lemma_filled(r, b, s, n);
            if self.next_token is Some && self.buffer@.len() > 0 {
                lemma_held_behind(
                    self.encoder.rules(),
                    self.text@,
                    self.buffer@,
                    self.pos as int,
                    self.dead@,
                );
            }
        }
        let ghost full = self.state();
        let out = self.buffer.pop_front();
        assert(self.state() =~= behind(full));
        out
    }
}

} // verus!
