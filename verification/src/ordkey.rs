//! A strict total order on map keys, checked rather than assumed.

use vstd::prelude::*;
use crate::text::{seq_lex_lt, lemma_lex_irreflexive, lemma_lex_transitive, lemma_lex_total};

verus! {

/// The outcome of comparing two keys.
#[derive(Debug, Clone, Copy, PartialEq, Eq, Structural)]
pub enum KeyOrder {
    Less,
    Equal,
    Greater,
}

/// Keys that the observed-remove map can keep in sorted order.
///
/// Keys are compared by their views: `view_lt` is the order the map is sorted by, the
/// proof functions show it is a strict total order, and `compare_key` computes it.
pub trait OrdKey: View + Sized {
    spec fn view_lt(a: Self::V, b: Self::V) -> bool;

    proof fn lemma_irreflexive(a: Self::V)
        ensures
            !Self::view_lt(a, a),
    ;

    proof fn lemma_transitive(a: Self::V, b: Self::V, c: Self::V)
        requires
            Self::view_lt(a, b),
            Self::view_lt(b, c),
        ensures
            Self::view_lt(a, c),
    ;

    proof fn lemma_total(a: Self::V, b: Self::V)
        ensures
            Self::view_lt(a, b) || Self::view_lt(b, a) || a == b,
    ;

    fn compare_key(&self, other: &Self) -> (o: KeyOrder)
        ensures
            (o == KeyOrder::Less) == Self::view_lt(self@, other@),
            (o == KeyOrder::Equal) == (self@ == other@),
            (o == KeyOrder::Greater) == Self::view_lt(other@, self@),
    ;

    fn copy_key(&self) -> (r: Self)
        ensures
            r@ == self@,
    ;
}

/// Strings are ordered as `str` orders them: lexicographically by character, which for
/// UTF-8 is the same as lexicographically by byte.
impl OrdKey for String {
    open spec fn view_lt(a: Seq<char>, b: Seq<char>) -> bool {
        seq_lex_lt(a, b)
    }

    proof fn lemma_irreflexive(a: Seq<char>) {
        lemma_lex_irreflexive(a);
    }

    proof fn lemma_transitive(a: Seq<char>, b: Seq<char>, c: Seq<char>) {
        lemma_lex_transitive(a, b, c);
    }

    proof fn lemma_total(a: Seq<char>, b: Seq<char>) {
        lemma_lex_total(a, b);
    }

    fn compare_key(&self, other: &Self) -> (o: KeyOrder) {
        crate::text::compare_chars(self.as_str(), other.as_str())
    }

    fn copy_key(&self) -> (r: Self) {
        self.clone()
    }
}

} // verus!
