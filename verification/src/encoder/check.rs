//! Checking tables that were not built here.
use crate::automaton;
use crate::encoder::backtracking;
use crate::encoder::backtracking::BacktrackingBytePairEncoder;
use crate::types::{Split, TokenId};
use crate::text::same_bytes;
use vstd::prelude::*;

verus! {

/// Do the tokens have room in an automaton?
pub fn tokens_fit(token_bytes: &[Vec<u8>]) -> (r: bool)
    ensures
        r == automaton::patterns_fit(
            backtracking::vocab_patterns(backtracking::views(token_bytes@)),
        ),
{
    let ghost p = backtracking::vocab_patterns(backtracking::views(token_bytes@));
    let mut size: usize = 0;
    let mut i: usize = 0;
    assert(p.subrange(0, 0) =~= seq![]);
    while i < token_bytes.len()
        invariant
            i <= token_bytes.len(),
            p == backtracking::vocab_patterns(backtracking::views(token_bytes@)),
            size == automaton::patterns_size(p.subrange(0, i as int)) < automaton::PATTERN_ROOM,
        decreases token_bytes.len() - i,
    {
        let n: usize = token_bytes[i].len();
        proof {
            let s = p.subrange(0, i + 1);
            assert(s.drop_last() =~= p.subrange(0, i as int));
            assert(s.last().0.len() == n);
            backtracking::lemma_patterns_size(p, i + 1);
        }
        if automaton::PATTERN_ROOM - size <= automaton::PATTERN_COST || n
            >= automaton::PATTERN_ROOM - size - automaton::PATTERN_COST {
            return false;
        }
        size = size + n + automaton::PATTERN_COST;
        i = i + 1;
    }
    assert(p.subrange(0, p.len() as int) =~= p);
    true
}

/// Does every token have a split?
pub fn check_splits(token_bytes: &[Vec<u8>], splits: &[Split]) -> (r: bool)
    ensures
        r == backtracking::splits_ok(backtracking::views(token_bytes@), splits@),
{
    let n: usize = token_bytes.len();
    let ghost vocab = backtracking::views(token_bytes@);
    if splits.len() != n {
        return false;
    }
    let mut i: usize = 0;
    while i < n
        invariant
            vocab == backtracking::views(token_bytes@),
            n == token_bytes@.len() == splits@.len(),
            i <= n,
            forall|k: int|
                0 <= k < i ==> backtracking::split_ok(vocab, #[trigger] splits@[k], k),
        decreases n - i,
    {
        let l: usize = splits[i].left as usize;
        let r: usize = splits[i].right as usize;
        let len: usize = token_bytes[i].len();
        let left_ok = l == i || (l < n && (token_bytes[l].len() < len || (token_bytes[l].len() == len
            && l < i)));
        let right_ok = r == i || (r < n && (token_bytes[r].len() < len || (token_bytes[r].len()
            == len && r < i)));
        let ok = left_ok && right_ok;
        assert(ok == backtracking::split_ok(vocab, splits@[i as int], i as int));
        if !ok {
            return false;
        }
        i = i + 1;
    }
    true
}

/// Are the numbers the same?
fn same_ids(a: &[TokenId], b: &[TokenId]) -> (r: bool)
    ensures
        r == (a@ == b@),
{
    if a.len() != b.len() {
        return false;
    }
    let mut i: usize = 0;
    while i < a.len()
        invariant
            i <= a.len(),
            a.len() == b.len(),
            forall|k: int| 0 <= k < i ==> a@[k] == b@[k],
        decreases a.len() - i,
    {
        if a[i] != b[i] {
            return false;
        }
        i = i + 1;
    }
    assert(a@ =~= b@);
    true
}

impl BacktrackingBytePairEncoder {
    /// The encoder, if its tables are those of this vocabulary: its splits
    /// lead to shorter tokens, and its automaton and its prefix table are the
    /// ones that would be built for it.
    pub fn checked(self, token_bytes: &[Vec<u8>]) -> (r: Option<Self>)
        ensures
            r matches Some(e) ==> {
                &&& e.wf()
                &&& e.vocab() == backtracking::views(token_bytes@)
                &&& e.splits() == self.splits()
                &&& e.pairs() == self.pairs()
                &&& e.base_tokens() == self.base_tokens()
                &&& e.automaton() == self.automaton()
                &&& e.prefixes() == self.prefixes()
            },
            r is Some <==> backtracking::splits_ok(backtracking::views(token_bytes@), self.splits())
                && backtracking::tables_built(
                backtracking::views(token_bytes@),
                self.automaton(),
                self.prefixes(),
            ),
    {
        if !tokens_fit(token_bytes) || !check_splits(token_bytes, self.split_table()) {
            return None;
        }
        proof {
            backtracking::lemma_patterns_size(
                backtracking::vocab_patterns(backtracking::views(token_bytes@)),
                0,
            );
        }
        let built = Self::build_matcher(token_bytes);
        let a = automaton::write_matcher(&built);
        let b = automaton::write_matcher(self.matcher());
        if !same_bytes(a.as_slice(), b.as_slice()) {
            return None;
        }
        let table = Self::build_prefixes(&built, token_bytes);
        if !same_ids(table.as_slice(), self.next_prefix_match_table()) {
            return None;
        }
        Some(self.with_token_tables(token_bytes))
    }
}

} // verus!
