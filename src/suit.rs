use vstd::prelude::*;

verus! {

/// The four suits of a standard deck.
#[derive(Clone, Copy, Debug, PartialEq, Eq, Structural)]
pub enum Suit {
    Spade,
    Diamond,
    Club,
    Heart,
}

/// The colour a suit is printed in.
#[derive(Clone, Copy, Debug, PartialEq, Eq, Structural)]
pub enum SuitColor {
    Red,
    Black,
}

/// Colour of a suit: diamonds and hearts are red, spades and clubs black.
pub open spec fn color_of(s: Suit) -> SuitColor {
    match s {
        Suit::Spade | Suit::Club => SuitColor::Black,
        Suit::Diamond | Suit::Heart => SuitColor::Red,
    }
}

impl Suit {
    pub fn color(&self) -> (r: SuitColor)
        ensures
            r == color_of(*self),
    {
        match self {
            Suit::Spade | Suit::Club => SuitColor::Black,
            Suit::Diamond | Suit::Heart => SuitColor::Red,
        }
    }
}

} // verus!
