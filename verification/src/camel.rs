//! Camel-card faces and the joker rule: a joker keeps the face it shows but
//! is valued below every other card.

use vstd::prelude::*;

verus! {

/// The face of a camel card.
#[derive(Clone, Copy, Debug, PartialEq, Eq, Structural, Hash)]
pub enum Face {
    Ace,
    King,
    Queen,
    Jack,
    Number(u8),
    Joker,
}

/// A card as played: the face it shows and the face it is valued as. For an
/// ordinary card the two coincide; a joker keeps its shown face but takes
/// the lowest value.
#[derive(Clone, Copy, Debug, PartialEq, Eq, Structural)]
pub struct Card {
    pub face: Face,
    pub value: Face,
}

impl Card {
    /// A joker standing in for `face`: it shows that face but is valued as
    /// the lowest number card, weaker even than a 2.
    pub fn joker(face: Face) -> (c: Card)
        ensures
            c.face == face,
            c.value == Face::Number(1),
    {
        Card { face, value: Face::Number(1) }
    }

    /// Whether this card was played as a joker: its shown face and its
    /// value disagree.
    pub fn is_joker(&self) -> (r: bool)
        ensures
            r == (self.face != self.value),
    {
        self.face != self.value
    }
}

} // verus!
