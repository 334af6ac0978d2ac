use vstd::prelude::*;

use crate::location::Location;
use crate::pcard::PlayingCard;

verus! {

/// A pile that may receive a card: the card now on top of it, if any, and
/// the location a card put there would take.
#[derive(Clone, Copy, Debug, PartialEq, Eq, Structural)]
pub struct DropZone {
    pub card: Option<PlayingCard>,
    pub location: Location,
}

} // verus!
