use vstd::prelude::*;

use crate::suit::Suit;

verus! {

/// A playing card's face value: rank 1 (ace) to 13 (king), and suit.
#[derive(Clone, Copy, Debug, PartialEq, Eq, Structural)]
pub struct PlayingCard {
    pub rank: i32,
    pub suit: Suit,
}

} // verus!
