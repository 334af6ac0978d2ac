use vstd::prelude::*;

use crate::location::Location;
use crate::pcard::PlayingCard;
use crate::play_area::PlayArea;
use crate::suit::Suit;

verus! {

/// A card of the deck and the place where it lies.
#[derive(Clone, Copy, Debug, PartialEq, Eq, Structural)]
pub struct Card {
    pub pcard: PlayingCard,
    pub location: Location,
}

/// Where a card lies before anything is dealt: face down on the draw pile.
pub open spec fn initial_location() -> Location {
    Location { area: PlayArea::DrawPile, area_index: 0, sort_index: 0, faceup: false }
}

/// Suit of the `k`-th group of thirteen in a fresh deck.
pub open spec fn suit_at(k: int) -> Suit {
    if k == 0 {
        Suit::Spade
    } else if k == 1 {
        Suit::Diamond
    } else if k == 2 {
        Suit::Club
    } else {
        Suit::Heart
    }
}

/// The `i`-th card of a fresh deck: suits in turn, each from ace to king.
pub open spec fn standard_card(i: int) -> PlayingCard {
    PlayingCard { rank: (i % 13 + 1) as i32, suit: suit_at(i / 13) }
}

impl Card {
    pub fn new(rank: i32, suit: Suit) -> (r: Card)
        ensures
            r.pcard == (PlayingCard { rank, suit }),
            r.location == initial_location(),
    {
        Card {
            pcard: PlayingCard { rank, suit },
            location: Location { area: PlayArea::DrawPile, area_index: 0, sort_index: 0, faceup: false },
        }
    }

    /// A fresh deck of 52 cards, all face down on the draw pile.
    pub fn new_deck() -> (r: Vec<Card>)
        ensures
            r@.len() == 52,
            forall|i: int| 0 <= i < 52 ==> (#[trigger] r@[i]).pcard == standard_card(i),
            forall|i: int| 0 <= i < 52 ==> (#[trigger] r@[i]).location == initial_location(),
    {
        let suits: [Suit; 4] = [Suit::Spade, Suit::Diamond, Suit::Club, Suit::Heart];
        let mut deck: Vec<Card> = Vec::new();
        let mut s: usize = 0;
        while s < 4
            invariant
                s <= 4,
                deck@.len() == 13 * s,
                suits@ == seq![Suit::Spade, Suit::Diamond, Suit::Club, Suit::Heart],
                forall|i: int| 0 <= i < deck@.len() ==> (#[trigger] deck@[i]).pcard == standard_card(i),
                forall|i: int| 0 <= i < deck@.len() ==> (#[trigger] deck@[i]).location == initial_location(),
            decreases 4 - s,
        {
            let suit = suits[s];
            let mut rank: i32 = 1;
            while rank < 14
                invariant
                    s < 4,
                    1 <= rank <= 14,
                    suit == suit_at(s as int),
                    deck@.len() == 13 * s + rank - 1,
                    forall|i: int| 0 <= i < deck@.len() ==> (#[trigger] deck@[i]).pcard == standard_card(i),
                    forall|i: int| 0 <= i < deck@.len() ==> (#[trigger] deck@[i]).location == initial_location(),
                decreases 14 - rank,
            {
                proof {
                    vstd::arithmetic::div_mod::lemma_fundamental_div_mod_converse(
                        13 * s + rank - 1, 13, s as int, rank - 1);
                }
                deck.push(Card::new(rank, suit));
                rank = rank + 1;
            }
            s = s + 1;
        }
        deck
    }
}

} // verus!
