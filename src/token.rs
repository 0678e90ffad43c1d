//! What the codec asks of a token: a test for equality and a way to copy it.
use vstd::prelude::*;

verus! {

/// A unit of content that the codec can count, encode and decode.
///
/// Tokens are compared and copied through their view, so two tokens with the
/// same view are the same token to the codec.
pub trait Token: Sized + View {
    fn same_token(&self, other: &Self) -> (r: bool)
        ensures
            r == (self@ == other@),
    ;

    fn duplicate(&self) -> (r: Self)
        ensures
            r@ == self@,
    ;
}

impl Token for char {
    fn same_token(&self, other: &Self) -> (r: bool) {
        *self == *other
    }

    fn duplicate(&self) -> (r: Self) {
        *self
    }
}

impl Token for String {
    fn same_token(&self, other: &Self) -> (r: bool) {
        self.eq(other)
    }

    fn duplicate(&self) -> (r: Self) {
        self.clone()
    }
}

} // verus!
