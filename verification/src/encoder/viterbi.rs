//! The search for the best path through a lattice of tokens, apart from what
//! a path weighs: the caller says of each edge whether it leads to a better
//! path than the best so far.
use crate::encoder::unigram;
use crate::encoder::unigram::{Edge, UnigramEncoder};
use crate::types::TokenId;
use vstd::prelude::*;

verus! {

/// What the search knows: which places some path reaches, and by which token
/// and from where the best path to each comes.
pub struct Known {
    pub reached: Seq<bool>,
    pub back: Seq<(TokenId, usize)>,
}

/// What is known at the start: only the start is reached.
pub open spec fn known_first(n: int) -> Known {
    Known {
        reached: Seq::new((n + 1) as nat, |p: int| p == 0),
        back: Seq::new((n + 1) as nat, |p: int| (0u32, 0usize)),
    }
}

/// What is known after an edge from `s`.
pub open spec fn known_after(k: Known, s: int, e: Edge, better: bool) -> Known {
    if better {
        Known {
            reached: k.reached.update(e.end as int, true),
            back: k.back.update(e.end as int, (e.token, s as usize)),
        }
    } else {
        k
    }
}

/// The next edge to look at, from edge `i` of place `s` on: the edges of a
/// place that no path reaches are passed over.
pub open spec fn next_from(
    edges: Seq<Seq<Edge>>,
    reached: Seq<bool>,
    s: int,
    i: int,
) -> Option<(int, int)>
    decreases edges.len() - s,
{
    if s < 0 || s >= edges.len() {
        None
    } else if reached[s] && 0 <= i < edges[s].len() {
        Some((s, i))
    } else {
        next_from(edges, reached, s + 1, 0)
    }
}

/// The tokens lead from the start of the text to `p`, edge by edge.
pub open spec fn is_route(edges: Seq<Seq<Edge>>, p: int, tokens: Seq<TokenId>) -> bool
    decreases tokens.len(),
{
    if tokens.len() == 0 {
        p == 0
    } else {
        exists|s: int, i: int|
            #![trigger edges[s][i]]
            {
                &&& 0 <= s < edges.len()
                &&& 0 <= i < edges[s].len()
                &&& edges[s][i].end == p
                &&& edges[s][i].token == tokens.last()
                &&& is_route(edges, s, tokens.drop_last())
            }
    }
}

/// Each edge leads on, and stays in the text.
pub open spec fn lead_on(edges: Seq<Seq<Edge>>) -> bool {
    forall|s: int, i: int|
        #![trigger edges[s][i]]
        0 <= s < edges.len() && 0 <= i < edges[s].len() ==> s < edges[s][i].end <= edges.len()
}

/// The place comes from an earlier one by an edge.
pub open spec fn comes_by(edges: Seq<Seq<Edge>>, k: Known, p: int) -> bool {
    let s = k.back[p].1 as int;
    &&& s < p
    &&& k.reached[s]
    &&& exists|i: int|
        #![trigger edges[s][i]]
        0 <= i < edges[s].len() && edges[s][i].end == p && edges[s][i].token == k.back[p].0
}

/// What is known fits the lattice.
pub open spec fn known_fits(edges: Seq<Seq<Edge>>, k: Known) -> bool {
    let n = edges.len() as int;
    &&& k.reached.len() == n + 1
    &&& k.back.len() == n + 1
    &&& k.reached[0]
    &&& forall|p: int| 0 < p <= n && #[trigger] k.reached[p] ==> comes_by(edges, k, p)
    &&& forall|p: int| 0 <= p <= n && !#[trigger] k.reached[p] ==> k.back[p] == (0u32, 0usize)
}

/// What is known stays in order, whatever the caller says of an edge from a
/// place that is reached.
pub proof fn law_known_fits(edges: Seq<Seq<Edge>>, k: Known, s: int, i: int, better: bool)
    requires
        edges.len() <= usize::MAX,
        lead_on(edges),
        known_fits(edges, k),
        0 <= s < edges.len(),
        0 <= i < edges[s].len(),
        k.reached[s],
    ensures
        known_fits(edges, known_after(k, s, edges[s][i], better)),
{
    let e = edges[s][i];
    let q = known_after(k, s, e, better);
    if better {
        assert forall|p: int| 0 < p <= edges.len() && #[trigger] q.reached[p] implies comes_by(
            edges,
            q,
            p,
        ) by {
            if p == e.end {
                assert(q.back[p] == (e.token, s as usize));
                assert(edges[s][i].end == p);
            } else {
                assert(k.reached[p] && q.back[p] == k.back[p]);
                assert(comes_by(edges, k, p));
                let o = k.back[p].1 as int;
                assert(q.reached[o]);
                let j = choose|j: int|
                    #![trigger edges[o][j]]
                    0 <= j < edges[o].len() && edges[o][j].end == p && edges[o][j].token
                        == k.back[p].0;
                assert(edges[o][j].end == p);
            }
        }
    }
}

/// The way back from a place that is reached is a route to it.
pub proof fn law_path_is_route(edges: Seq<Seq<Edge>>, k: Known, p: int)
    requires
        known_fits(edges, k),
        0 <= p <= edges.len(),
        k.reached[p],
    ensures
        is_route(edges, p, unigram::path_to(k.back, p)),
    decreases p,
{
    if p > 0 {
        assert(comes_by(edges, k, p));
        let s = k.back[p].1 as int;
        law_path_is_route(edges, k, s);
        let t = unigram::path_to(k.back, p);
        assert(t.drop_last() =~= unigram::path_to(k.back, s));
        let i = choose|i: int|
            #![trigger edges[s][i]]
            0 <= i < edges[s].len() && edges[s][i].end == p && edges[s][i].token == k.back[p].0;
        assert(edges[s][i].token == t.last());
    }
}

/// A search through the lattice of a text.
pub struct Viterbi {
    edges: Vec<Vec<Edge>>,
    reached: Vec<bool>,
    back: Vec<(TokenId, usize)>,
    place: usize,
    edge: usize,
}

/// The edges of each place.
pub open spec fn lists(v: Seq<Vec<Edge>>) -> Seq<Seq<Edge>> {
    Seq::new(v.len(), |i: int| v[i]@)
}

impl Viterbi {
    /// The edges of each place.
    pub closed spec fn lattice(&self) -> Seq<Seq<Edge>> {
        lists(self.edges@)
    }

    /// What the search knows.
    pub closed spec fn known(&self) -> Known {
        Known { reached: self.reached@, back: self.back@ }
    }

    /// The edge that comes next: its place and its number there.
    pub open spec fn coming(&self) -> Option<(int, int)> {
        next_from(self.lattice(), self.known().reached, self.at().0, self.at().1)
    }

    /// Where the search is.
    pub closed spec fn at(&self) -> (int, int) {
        (self.place as int, self.edge as int)
    }

    /// The search is in order.
    pub closed spec fn wf(&self) -> bool {
        &&& lead_on(self.lattice())
        &&& known_fits(self.lattice(), self.known())
        &&& self.place <= self.edges@.len()
    }

    /// The edge that comes next, if there is one, with the place it leaves.
    pub fn next(&mut self) -> (r: Option<(usize, Edge)>)
        requires
            old(self).wf(),
        ensures
            final(self).wf(),
            final(self).lattice() == old(self).lattice(),
            final(self).known() == old(self).known(),
            final(self).coming() == old(self).coming(),
            match r {
                Some((s, e)) => {
                    &&& old(self).coming() matches Some((p, i))
                    &&& p == s
                    &&& 0 <= p < old(self).lattice().len()
                    &&& 0 <= i < old(self).lattice()[p].len()
                    &&& e == old(self).lattice()[p][i]
                    &&& e.end <= old(self).lattice().len()
                    &&& final(self).at() == (p, i)
                },
                None => old(self).coming() is None,
            },
    {
        let ghost edges = self.lattice();
        let ghost known = self.known();
        let ghost first = self.coming();
        while self.place < self.edges.len()
            invariant
                self.wf(),
                self.lattice() == edges,
                self.known() == known,
                self.coming() == first,
                edges == old(self).lattice(),
                known == old(self).known(),
                first == old(self).coming(),
            decreases self.edges.len() - self.place,
        {
            let here = self.edges[self.place].len();
            assert(edges[self.place as int] == self.edges@[self.place as int]@);
            if self.reached[self.place] && self.edge < here {
                let e = self.edges[self.place][self.edge];
                assert(edges[self.place as int][self.edge as int] == e);
                return Some((self.place, e));
            }
            self.place = self.place + 1;
            self.edge = 0;
        }
        None
    }

    /// Whether the coming edge leads to a better path to where it ends.
    pub fn answer(&mut self, better: bool)
        requires
            old(self).wf(),
            old(self).coming() is Some,
        ensures
            final(self).wf(),
            final(self).lattice() == old(self).lattice(),
            old(self).coming() matches Some((p, i)) ==> {
                &&& final(self).known() == known_after(
                    old(self).known(),
                    p,
                    old(self).lattice()[p][i],
                    better,
                )
                &&& final(self).at() == (p, i + 1)
            },
    {
        match self.next() {
            Some((s, e)) => {
                let n = self.edges.len();
                let ghost (p, i) = self.coming()->0;
                proof {
                    assert(self.lattice()[p] == self.edges@[p]@);
                    lemma_coming(self.lattice(), self.known().reached, self.at().0, self.at().1);
                    law_known_fits(self.lattice(), self.known(), p, i, better);
                }
                let ghost before = *self;
                let here = self.edges[s].len();
                if better {
                    self.reached.set(e.end, true);
                    self.back.set(e.end, (e.token, s));
                }
                assert(self.known().reached =~= known_after(before.known(), p, e, better).reached);
                assert(self.known().back =~= known_after(before.known(), p, e, better).back);
                self.edge = self.edge + 1;
            },
            None => {},
        }
    }
}

proof fn lemma_coming(edges: Seq<Seq<Edge>>, reached: Seq<bool>, s: int, i: int)
    requires
        0 <= s,
    ensures
        next_from(edges, reached, s, i) matches Some((p, j)) ==> s <= p < edges.len() && 0 <= j
            < edges[p].len() && reached[p],
    decreases edges.len() - s,
{
    if s < edges.len() && !(reached[s] && 0 <= i < edges[s].len()) {
        lemma_coming(edges, reached, s + 1, 0);
    }
}

/// The lattice of a text.
pub open spec fn lattice_of(m: unigram::Model, text: Seq<u8>) -> Seq<Seq<Edge>> {
    Seq::new(text.len(), |s: int| unigram::edges_from(m, text, s))
}

proof fn lemma_tokens_from(tokens: Map<Seq<u8>, TokenId>, text: Seq<u8>, s: int, e: int)
    requires
        0 <= s,
        e <= usize::MAX,
    ensures
        forall|i: int|
            0 <= i < unigram::tokens_from(tokens, text, s, e).len() ==> s < (
            #[trigger] unigram::tokens_from(tokens, text, s, e)[i]).end <= e,
    decreases e - s,
{
    if s < e {
        lemma_tokens_from(tokens, text, s, e - 1);
        let front = unigram::tokens_from(tokens, text, s, e - 1);
        let all = unigram::tokens_from(tokens, text, s, e);
        assert forall|i: int| 0 <= i < all.len() implies s < (#[trigger] all[i]).end <= e by {
            if i < front.len() {
                assert(all[i] == front[i]);
            }
        }
    }
}

/// Each edge of the lattice of a text leads on, and stays in the text.
pub proof fn law_lattice_leads_on(m: unigram::Model, text: Seq<u8>)
    requires
        text.len() <= usize::MAX,
    ensures
        lead_on(lattice_of(m, text)),
{
    let l = lattice_of(m, text);
    assert forall|s: int, i: int|
        #![trigger l[s][i]]
        0 <= s < l.len() && 0 <= i < l[s].len() implies s < l[s][i].end <= l.len() by {
        lemma_tokens_from(m.tokens, text, s, text.len() as int);
        let found = unigram::tokens_from(m.tokens, text, s, text.len() as int);
        if i < found.len() {
            assert(l[s][i] == found[i]);
        }
    }
}

impl UnigramEncoder {
    /// A search through the lattice of a text, at its start.
    pub fn search(&self, text: &[u8]) -> (v: Viterbi)
        requires
            self.wf(),
        ensures
            v.wf(),
            v.lattice() == lattice_of(self.model(), text@),
            v.known() == known_first(text@.len() as int),
            v.at() == (0int, 0int),
    {
        let edges = self.edges(text);
        let n = text.len();
        let mut reached: Vec<bool> = vec![true];
        let mut back: Vec<(TokenId, usize)> = vec![(0, 0)];
        let mut i: usize = 0;
        while i < n
            invariant
                i <= n,
                reached@.len() == i + 1,
                back@.len() == i + 1,
                forall|p: int| 0 <= p <= i ==> #[trigger] reached@[p] == (p == 0),
                forall|p: int| 0 <= p <= i ==> #[trigger] back@[p] == (0u32, 0usize),
            decreases n - i,
        {
            reached.push(false);
            back.push((0, 0));
            i = i + 1;
        }
        proof {
            law_lattice_leads_on(self.model(), text@);
            assert(lists(edges@) =~= lattice_of(self.model(), text@));
            assert(reached@ =~= known_first(n as int).reached);
            assert(back@ =~= known_first(n as int).back);
        }
        Viterbi { edges, reached, back, place: 0, edge: 0 }
    }

    /// The tokens of the best path that a search found, in which consecutive
    /// unknown tokens are collapsed; where no path reaches the end, the tokens
    /// that bridge the text.
    pub fn finish(&self, text: &[u8], v: &Viterbi) -> (r: Vec<TokenId>)
        requires
            self.wf(),
            v.wf(),
            v.lattice() == lattice_of(self.model(), text@),
        ensures
            v.known().reached[text@.len() as int] ==> {
                let path = unigram::path_to(v.known().back, text@.len() as int);
                &&& is_route(lattice_of(self.model(), text@), text@.len() as int, path)
                &&& r@ == unigram::collapsed(path, self.model().unk)
            },
            !v.known().reached[text@.len() as int] ==> r@ == unigram::bridged(
                self.model(),
                text@,
                0,
            ),
    {
        let n = text.len();
        if v.reached[n] {
            proof {
                law_path_is_route(v.lattice(), v.known(), n as int);
                assert forall|p: int| 0 < p <= n implies (#[trigger] v.back@[p]).1 < p by {
                    if v.known().reached[p] {
                        assert(comes_by(v.lattice(), v.known(), p));
                    } else {
                        assert(v.known().back[p] == (0u32, 0usize));
                    }
                }
            }
            unigram::collect_tokens_from_backptr(v.back.as_slice(), n, self.unk_token())
        } else {
            self.encode_with_unk_bridging(text)
        }
    }
}

} // verus!
