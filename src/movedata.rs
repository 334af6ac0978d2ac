use vstd::prelude::*;

use crate::location::Location;
use crate::pcard::PlayingCard;

verus! {

/// A move of one card to a new location.
#[derive(Clone, Copy, Debug, PartialEq, Eq, Structural)]
pub struct MoveData {
    /// The card to be moved.
    pub pcard: PlayingCard,
    /// Where it goes.
    pub to: Location,
}

/// A card together with the place where it lies.
#[derive(Clone, Copy, Debug, PartialEq, Eq, Structural)]
pub struct PlacedCard {
    pub pcard: PlayingCard,
    pub location: Location,
}

} // verus!
