//! Short vectors that live without a heap allocation.
use crate::types::TokenId;
use vstd::prelude::*;

verus! {

/// Trusted: a `smallvec::SmallVec` of token ids, seen only through its
/// contents.
#[verifier::external_body]
pub struct TokenStack {
    inner: smallvec::SmallVec<[TokenId; 16]>,
}

/// What a stack of tokens holds, the top last.
pub uninterp spec fn stack_tokens(s: TokenStack) -> Seq<TokenId>;

impl TokenStack {
    /// Trusted: `SmallVec::new` makes an empty vector.
    #[verifier::external_body]
    pub(crate) fn new() -> (s: Self)
        ensures
            stack_tokens(s).len() == 0,
    {
        TokenStack { inner: smallvec::SmallVec::new() }
    }

    /// Trusted: `SmallVec::push` appends an element.
    #[verifier::external_body]
    pub(crate) fn push(&mut self, t: TokenId)
        ensures
            stack_tokens(*final(self)) == stack_tokens(*old(self)).push(t),
    {
        self.inner.push(t)
    }

    /// Trusted: `SmallVec::pop` removes the last element, if there is one.
    #[verifier::external_body]
    pub(crate) fn pop(&mut self) -> (r: Option<TokenId>)
        ensures
            stack_tokens(*old(self)).len() == 0 ==> r is None && stack_tokens(*final(self))
                == stack_tokens(*old(self)),
            stack_tokens(*old(self)).len() > 0 ==> r == Some(stack_tokens(*old(self)).last())
                && stack_tokens(*final(self)) == stack_tokens(*old(self)).drop_last(),
    {
        self.inner.pop()
    }

    /// Trusted: `SmallVec` dereferences to the slice of its elements.
    #[verifier::external_body]
    pub(crate) fn as_slice(&self) -> (r: &[TokenId])
        ensures
            r@ == stack_tokens(*self),
    {
        &self.inner
    }
}

/// Trusted: a `smallvec::SmallVec` of machine words, seen only through its
/// contents.
#[verifier::external_body]
pub struct Words {
    inner: smallvec::SmallVec<[u64; 4]>,
}

/// What a vector of words holds.
pub uninterp spec fn words_of(w: Words) -> Seq<u64>;

impl Words {
    /// Trusted: `smallvec::SmallVec::from_elem` makes `n` copies of a word.
    #[verifier::external_body]
    pub(crate) fn filled(x: u64, n: usize) -> (w: Self)
        ensures
            words_of(w) == Seq::new(n as nat, |i: int| x),
    {
        Words { inner: smallvec::SmallVec::from_elem(x, n) }
    }

    /// Trusted: indexing a `SmallVec` reads the word at `i`.
    #[verifier::external_body]
    pub(crate) fn get(&self, i: usize) -> (x: u64)
        requires
            i < words_of(*self).len(),
        ensures
            x == words_of(*self)[i as int],
    {
        self.inner[i]
    }

    /// Trusted: assigning through the index of a `SmallVec` changes the word at `i`.
    #[verifier::external_body]
    pub(crate) fn set(&mut self, i: usize, x: u64)
        requires
            i < words_of(*old(self)).len(),
        ensures
            words_of(*final(self)) == words_of(*old(self)).update(i as int, x),
    {
        self.inner[i] = x;
    }
}

} // verus!
