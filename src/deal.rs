use rand::seq::SliceRandom;
use vstd::prelude::*;

use crate::card::{initial_location, standard_card, suit_at, Card};
use crate::dealer::Dealer;
use crate::location::Location;
use crate::play_area::PlayArea;

verus! {

/// Number of cards of a fresh deck.
pub const DECK_SIZE: usize = 52;

/// Number of cards that `n` tableau columns take: 1 + 2 + ... + n.
pub open spec fn tri(n: int) -> int
    decreases n,
{
    if n <= 0 {
        0
    } else {
        tri(n - 1) + n
    }
}

/// Places of the cards of column `c` after a deal: `c + 1` cards, only the
/// last face up.
pub open spec fn column_locs(c: int) -> Seq<Location> {
    Seq::new(
        (c + 1) as nat,
        |j: int|
            Location {
                area: PlayArea::Tableau,
                area_index: c as usize,
                sort_index: j as usize,
                faceup: j == c,
            },
    )
}

/// Places of the cards dealt to the first `n` columns, column after column.
pub open spec fn tableau_locs(n: int) -> Seq<Location>
    decreases n,
{
    if n <= 0 {
        Seq::empty()
    } else {
        tableau_locs(n - 1) + column_locs(n - 1)
    }
}

/// Places of all cards after a deal to `n` columns: the tableau in deck
/// order, then the rest face down on the draw pile, stacked in deck order.
pub open spec fn dealt_locs(n: int) -> Seq<Location> {
    tableau_locs(n) + Seq::new(
        (DECK_SIZE - tri(n)) as nat,
        |k: int|
            Location { area: PlayArea::DrawPile, area_index: 0, sort_index: k as usize, faceup: false },
    )
}

/// No two cards of the deck have the same face.
pub open spec fn distinct_faces(deck: Seq<Card>) -> bool {
    forall|i: int, j: int|
        0 <= i < deck.len() && 0 <= j < deck.len() && i != j ==> deck[i].pcard != deck[j].pcard
}

/// Two locations are different places: another pile, or another depth.
pub open spec fn apart(a: Location, b: Location) -> bool {
    a.stack() != b.stack() || a.sort_index != b.sort_index
}

proof fn lemma_tri(n: int)
    requires
        0 <= n,
    ensures
        tableau_locs(n).len() == tri(n),
        tri(n) >= 0,
        forall|c: int| 0 <= c <= n ==> tri(c) <= tri(n),
    decreases n,
{
    if n > 0 {
        lemma_tri(n - 1);
    }
}

proof fn lemma_tri_small(n: int)
    requires
        0 <= n <= 9,
    ensures
        tri(n) <= 45,
{
    lemma_tri(n);
    lemma_tri(9);
    reveal_with_fuel(tri, 10);
}

/// A fresh deck holds each face once.
proof fn lemma_standard_distinct()
    ensures
        forall|i: int, j: int|
            0 <= i < 52 && 0 <= j < 52 && i != j ==> standard_card(i) != standard_card(j),
{
    assert forall|i: int, j: int|
        0 <= i < 52 && 0 <= j < 52 && i != j implies standard_card(i) != standard_card(j) by {
        vstd::arithmetic::div_mod::lemma_fundamental_div_mod(i, 13);
        vstd::arithmetic::div_mod::lemma_fundamental_div_mod(j, 13);
        vstd::arithmetic::div_mod::lemma_div_pos_is_pos(i, 13);
        vstd::arithmetic::div_mod::lemma_div_pos_is_pos(j, 13);
        vstd::arithmetic::div_mod::lemma_div_is_ordered(i, 51, 13);
        vstd::arithmetic::div_mod::lemma_div_is_ordered(j, 51, 13);
        vstd::arithmetic::div_mod::lemma_mod_bound(i, 13);
        vstd::arithmetic::div_mod::lemma_mod_bound(j, 13);
        if standard_card(i) == standard_card(j) {
            assert(i % 13 == j % 13);
            assert(suit_at(i / 13) == suit_at(j / 13));
            assert(i / 13 == j / 13);
        }
    }
}

/// The dealt tableau: all its cards lie in the first `n` columns, and no
/// two in the same place.
proof fn lemma_tableau_apart(n: int)
    requires
        0 <= n <= 9,
    ensures
        forall|x: int|
            0 <= x < tableau_locs(n).len() ==> (#[trigger] tableau_locs(n)[x]).area == PlayArea::Tableau
                && tableau_locs(n)[x].area_index < n,
        forall|x: int, y: int|
            0 <= x < tableau_locs(n).len() && 0 <= y < tableau_locs(n).len() && x != y ==> apart(
                #[trigger] tableau_locs(n)[x],
                #[trigger] tableau_locs(n)[y],
            ),
    decreases n,
{
    if n > 0 {
        lemma_tableau_apart(n - 1);
        lemma_tri(n);
        lemma_tri(n - 1);
        let t = tableau_locs(n);
        let p = tableau_locs(n - 1);
        let col = column_locs(n - 1);
        assert(t == p + col);
        assert forall|x: int| 0 <= x < t.len() implies (#[trigger] t[x]).area == PlayArea::Tableau
            && t[x].area_index < n by {
            if x < p.len() {
                assert(t[x] == p[x]);
            } else {
                assert(t[x] == col[x - p.len()]);
            }
        }
        assert forall|x: int, y: int|
            0 <= x < t.len() && 0 <= y < t.len() && x != y implies apart(#[trigger] t[x], #[trigger] t[y]) by {
            if x < p.len() {
                assert(t[x] == p[x]);
            } else {
                assert(t[x] == col[x - p.len()]);
            }
            if y < p.len() {
                assert(t[y] == p[y]);
            } else {
                assert(t[y] == col[y - p.len()]);
            }
        }
    }
}

/// After a deal to `n` columns no two cards share a place: every card has
/// its own pair of pile and depth.
pub proof fn lemma_dealt_apart(n: int)
    requires
        1 <= n <= 9,
    ensures
        dealt_locs(n).len() == DECK_SIZE,
        forall|x: int, y: int|
            0 <= x < DECK_SIZE && 0 <= y < DECK_SIZE && x != y ==> apart(
                #[trigger] dealt_locs(n)[x],
                #[trigger] dealt_locs(n)[y],
            ),
{
    lemma_tri(n);
    lemma_tri_small(n);
    lemma_tableau_apart(n);
    let t = tableau_locs(n);
    let d = dealt_locs(n);
    assert forall|x: int, y: int|
        0 <= x < DECK_SIZE && 0 <= y < DECK_SIZE && x != y implies apart(#[trigger] d[x], #[trigger] d[y]) by {
        if x < t.len() {
            assert(d[x] == t[x]);
        }
        if y < t.len() {
            assert(d[y] == t[y]);
        }
    }
}

/// Relies on rand's `SliceRandom::shuffle`, which reorders the slice by
/// swapping elements: the same cards come back, each as often as before.
#[verifier::external_body]
fn shuffle_cards(cards: &mut Vec<Card>)
    ensures
        final(cards)@.len() == old(cards)@.len(),
        final(cards)@.to_multiset() == old(cards)@.to_multiset(),
{
    cards.shuffle(&mut rand::thread_rng());
}

/// A reordering of a deck of different cards holds different cards.
proof fn lemma_reorder_distinct(a: Seq<Card>, b: Seq<Card>)
    requires
        distinct_faces(a),
        a.to_multiset() == b.to_multiset(),
    ensures
        distinct_faces(b),
{
    broadcast use vstd::seq_lib::to_multiset_contains;

    assert(a.no_duplicates()) by {
        assert forall|i: int, j: int| 0 <= i < a.len() && 0 <= j < a.len() && i != j implies a[i] != a[j] by {
            assert(a[i].pcard != a[j].pcard);
        }
    }
    a.lemma_multiset_has_no_duplicates();
    b.lemma_multiset_has_no_duplicates_conv();
    assert forall|i: int, j: int|
        0 <= i < b.len() && 0 <= j < b.len() && i != j implies b[i].pcard != b[j].pcard by {
        assert(b.contains(b[i]));
        assert(b.contains(b[j]));
        assert(b.to_multiset().count(b[i]) > 0);
        assert(b.to_multiset().count(b[j]) > 0);
        assert(a.contains(b[i]));
        assert(a.contains(b[j]));
        let x = choose|x: int| 0 <= x < a.len() && a[x] == b[i];
        let y = choose|y: int| 0 <= y < a.len() && a[y] == b[j];
        if b[i].pcard == b[j].pcard {
            assert(x == y);
        }
    }
}

impl Dealer {
    /// The table is in order: a deck of 52 different cards, and a number of
    /// columns that a deal can fill.
    pub open spec fn wf(self) -> bool {
        &&& self.deck@.len() == DECK_SIZE
        &&& 1 <= self.n_columns <= 9
        &&& distinct_faces(self.deck@)
    }

    /// A table with a fresh deck, face down on the draw pile.
    pub fn new(n_columns: i32) -> (r: Dealer)
        requires
            1 <= n_columns <= 9,
        ensures
            r.wf(),
            r.n_columns == n_columns,
            forall|i: int| 0 <= i < 52 ==> (#[trigger] r.deck@[i]).pcard == standard_card(i),
            forall|i: int| 0 <= i < 52 ==> (#[trigger] r.deck@[i]).location == initial_location(),
    {
        let deck = Card::new_deck();
        proof {
            lemma_standard_distinct();
        }
        Dealer { deck, n_columns }
    }

    /// Puts the deck in a random order.
    pub fn shuffle(&mut self)
        requires
            old(self).wf(),
        ensures
            final(self).wf(),
            final(self).n_columns == old(self).n_columns,
            final(self).deck@.to_multiset() == old(self).deck@.to_multiset(),
    {
        shuffle_cards(&mut self.deck);
        proof {
            lemma_reorder_distinct(old(self).deck@, self.deck@);
        }
    }

    pub fn set_n_columns(&mut self, n_columns: i32)
        requires
            1 <= n_columns <= 9,
        ensures
            final(self).n_columns == n_columns,
            final(self).deck == old(self).deck,
    {
        self.n_columns = n_columns;
    }

    /// Puts the same location on every card.
    fn set_card_data(cards: &mut Vec<Card>, loc: &Location)
        ensures
            final(cards)@.len() == old(cards)@.len(),
            forall|i: int|
                0 <= i < old(cards)@.len() ==> #[trigger] final(cards)@[i] == (Card {
                    pcard: old(cards)@[i].pcard,
                    location: *loc,
                }),
    {
        let ghost before = cards@;
        let mut i: usize = 0;
        while i < cards.len()
            invariant
                cards@.len() == before.len(),
                i <= cards@.len(),
                forall|k: int| 0 <= k < i ==> #[trigger] cards@[k] == (Card { pcard: before[k].pcard, location: *loc }),
                forall|k: int| i <= k < cards@.len() ==> #[trigger] cards@[k] == before[k],
            decreases cards@.len() - i,
        {
            let mut card = cards[i];
            card.location.copy_from(loc);
            cards.set(i, card);
            i = i + 1;
        }
    }

    /// Deals a new game from the deck as it lies: column `c` of the tableau
    /// gets the next `c + 1` cards, the last one face up, and the remaining
    /// cards go face down to the draw pile.
    pub fn deal(&mut self)
        requires
            old(self).wf(),
        ensures
            final(self).wf(),
            final(self).n_columns == old(self).n_columns,
            forall|i: int| 0 <= i < DECK_SIZE ==> (#[trigger] final(self).deck@[i]).pcard == old(self).deck@[i].pcard,
            forall|i: int|
                0 <= i < DECK_SIZE ==> (#[trigger] final(self).deck@[i]).location == dealt_locs(
                    old(self).n_columns as int,
                )[i],
            forall|i: int, j: int|
                0 <= i < DECK_SIZE && 0 <= j < DECK_SIZE && i != j ==> apart(
                    #[trigger] final(self).deck@[i].location,
                    #[trigger] final(self).deck@[j].location,
                ),
    {
        let ghost before = self.deck@;
        let ghost n0 = self.n_columns;
        let n_columns = self.n_columns as usize;
        Self::set_card_data(
            &mut self.deck,
            &Location { area: PlayArea::DrawPile, area_index: 0, sort_index: 0, faceup: false },
        );
        proof {
            lemma_tri(n_columns as int);
            lemma_tri_small(n_columns as int);
        }

        let mut i: usize = 0;
        let mut c: usize = 0;
        while c < n_columns
            invariant
                1 <= n_columns <= 9,
                tri(n_columns as int) <= 45,
                c <= n_columns,
                i == tri(c as int),
                tableau_locs(c as int).len() == i,
                self.deck@.len() == DECK_SIZE,
                self.n_columns == n0,
                forall|k: int| 0 <= k < DECK_SIZE ==> (#[trigger] self.deck@[k]).pcard == before[k].pcard,
                forall|k: int| 0 <= k < i ==> (#[trigger] self.deck@[k]).location == tableau_locs(c as int)[k],
                forall|k: int|
                    i <= k < DECK_SIZE ==> (#[trigger] self.deck@[k]).location == (Location {
                        area: PlayArea::DrawPile,
                        area_index: 0,
                        sort_index: 0,
                        faceup: false,
                    }),
            decreases n_columns - c,
        {
            proof {
                lemma_tri(n_columns as int);
                lemma_tri(c + 1);
                assert(tableau_locs(c + 1) == tableau_locs(c as int) + column_locs(c as int));
            }
            let mut j: usize = 0;
            while j <= c
                invariant
                    c < n_columns <= 9,
                    tri(c as int + 1) <= 45,
                    tri(c as int + 1) == tri(c as int) + c + 1,
                    j <= c + 1,
                    i == tri(c as int) + j,
                    tableau_locs(c as int).len() == tri(c as int),
                    self.deck@.len() == DECK_SIZE,
                    self.n_columns == n0,
                    forall|k: int| 0 <= k < DECK_SIZE ==> (#[trigger] self.deck@[k]).pcard == before[k].pcard,
                    forall|k: int| 0 <= k < tri(c as int) ==> (#[trigger] self.deck@[k]).location == tableau_locs(c as int)[k],
                    forall|k: int|
                        tri(c as int) <= k < i ==> (#[trigger] self.deck@[k]).location == column_locs(c as int)[k - tri(c as int)],
                    forall|k: int|
                        i <= k < DECK_SIZE ==> (#[trigger] self.deck@[k]).location == (Location {
                            area: PlayArea::DrawPile,
                            area_index: 0,
                            sort_index: 0,
                            faceup: false,
                        }),
                decreases c + 1 - j,
            {
                let mut card = self.deck[i];
                if j == c {
                    card.location.faceup = true;
                }
                card.location.area = PlayArea::Tableau;
                card.location.area_index = c;
                card.location.sort_index = j;
                self.deck.set(i, card);
                i = i + 1;
                j = j + 1;
            }
            proof {
                let t = tableau_locs(c as int + 1);
                assert forall|k: int| 0 <= k < i implies (#[trigger] self.deck@[k]).location == t[k] by {
                    if k < tri(c as int) {
                        assert(t[k] == tableau_locs(c as int)[k]);
                    } else {
                        assert(t[k] == column_locs(c as int)[k - tri(c as int)]);
                    }
                }
            }
            c = c + 1;
        }

        // The cards left over make the draw pile.
        let first_drawn = i;
        while i < self.deck.len()
            invariant
                first_drawn == tri(n_columns as int),
                first_drawn <= i <= DECK_SIZE,
                tableau_locs(n_columns as int).len() == first_drawn,
                self.deck@.len() == DECK_SIZE,
                self.n_columns == n0,
                forall|k: int| 0 <= k < DECK_SIZE ==> (#[trigger] self.deck@[k]).pcard == before[k].pcard,
                forall|k: int| 0 <= k < i ==> (#[trigger] self.deck@[k]).location == dealt_locs(n_columns as int)[k],
                forall|k: int|
                    i <= k < DECK_SIZE ==> (#[trigger] self.deck@[k]).location == (Location {
                        area: PlayArea::DrawPile,
                        area_index: 0,
                        sort_index: 0,
                        faceup: false,
                    }),
            decreases DECK_SIZE - i,
        {
            let mut card = self.deck[i];
            card.location.sort_index = i - first_drawn;
            self.deck.set(i, card);
            i = i + 1;
        }
        proof {
            assert forall|a: int, b: int|
                0 <= a < self.deck@.len() && 0 <= b < self.deck@.len() && a != b implies self.deck@[a].pcard
                != self.deck@[b].pcard by {
                let _ = self.deck@[a];
                let _ = self.deck@[b];
            }
            lemma_dealt_apart(n_columns as int);
            assert forall|a: int, b: int|
                0 <= a < DECK_SIZE && 0 <= b < DECK_SIZE && a != b implies apart(
                #[trigger] self.deck@[a].location,
                #[trigger] self.deck@[b].location,
            ) by {
                assert(apart(dealt_locs(n_columns as int)[a], dealt_locs(n_columns as int)[b]));
            }
        }
    }
}

} // verus!
