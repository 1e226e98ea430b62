use vstd::prelude::*;

verus! {

/// A value usable as a state of the chain.
///
/// A token is an opaque, equality-comparable, duplicable value; both
/// operations are tied to the token's abstract view, so that two tokens
/// denote the same state exactly when their views are equal.
pub trait Token: View + Sized {
    /// Decides whether two tokens denote the same state.
    fn eq_token(&self, other: &Self) -> (r: bool)
        ensures
            r == (self@ == other@),
    ;

    /// Returns a copy of the token, denoting the same state.
    fn clone_token(&self) -> (r: Self)
        ensures
            r@ == self@,
    ;
}

impl Token for String {
    fn eq_token(&self, other: &Self) -> (r: bool) {
        *self == *other
    }

    fn clone_token(&self) -> (r: Self) {
        self.clone()
    }
}

impl Token for u64 {
    fn eq_token(&self, other: &Self) -> (r: bool) {
        *self == *other
    }

    fn clone_token(&self) -> (r: Self) {
        *self
    }
}

} // verus!
