//! Token ids and merge splits.
use vstd::prelude::*;

verus! {

/// The id of a token.
pub type TokenId = u32;

/// How a token came about: the two tokens it was merged from, or, for a base
/// token, the token itself twice.
#[derive(Clone, Copy, Debug, PartialEq, Eq, Structural)]
pub struct Split {
    pub left: TokenId,
    pub right: TokenId,
}

impl Split {
    /// A token that no merge made.
    pub fn base(id: TokenId) -> (r: Split)
        ensures
            r.left == id,
            r.right == id,
    {
        Split { left: id, right: id }
    }

    /// A token merged from `left` and `right`.
    pub fn merge(left: TokenId, right: TokenId) -> (r: Split)
        ensures
            r.left == left,
            r.right == right,
    {
        Split { left, right }
    }
}

} // verus!
