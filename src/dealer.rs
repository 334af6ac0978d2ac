use vstd::prelude::*;

use crate::card::Card;
use crate::deal::distinct_faces;
use crate::dropzone::DropZone;
use crate::location::Location;
use crate::movedata::{MoveData, PlacedCard};
use crate::pcard::PlayingCard;
use crate::play_area::PlayArea;
use crate::suit::color_of;

verus! {

/// A move named a card that is not in the deck.
#[derive(Clone, Copy, Debug, PartialEq, Eq, Structural)]
pub struct CardNotFound {}

/// The table: every card of the game with its location, and the number of
/// tableau columns that the game is played with.
#[derive(Debug)]
pub struct Dealer {
    pub deck: Vec<Card>,
    pub n_columns: i32,
}

/// Card `i` lies highest in its pile among the first `n` cards of the deck;
/// of cards at the same height, the one met first counts.
pub open spec fn is_top_upto(deck: Seq<Card>, n: int, i: int) -> bool {
    &&& 0 <= i < n <= deck.len()
    &&& forall|j: int|
        #![trigger deck[j]]
        0 <= j < n && deck[j].location.stack() == deck[i].location.stack() ==> {
            &&& deck[j].location.sort_index <= deck[i].location.sort_index
            &&& (j < i ==> deck[j].location.sort_index < deck[i].location.sort_index)
        }
}

/// Card `i` is the top card of its pile.
pub open spec fn is_top(deck: Seq<Card>, i: int) -> bool {
    is_top_upto(deck, deck.len() as int, i)
}

/// A card seen together with its location.
pub open spec fn placed(c: Card) -> PlacedCard {
    PlacedCard { pcard: c.pcard, location: c.location }
}

/// `p` is the top card of some pile of one of the given areas.
pub open spec fn is_top_entry(deck: Seq<Card>, areas: Seq<PlayArea>, p: PlacedCard) -> bool {
    exists|i: int| is_top(deck, i) && areas.contains(deck[i].location.area) && p == placed(deck[i])
}

/// No two entries belong to the same pile.
pub open spec fn distinct_stacks(r: Seq<PlacedCard>) -> bool {
    forall|a: int, b: int|
        0 <= a < r.len() && 0 <= b < r.len() && a != b ==> r[a].location.stack()
            != r[b].location.stack()
}

/// A pile has one top card.
pub proof fn lemma_top_unique(deck: Seq<Card>, n: int, a: int, b: int)
    requires
        is_top_upto(deck, n, a),
        is_top_upto(deck, n, b),
        deck[a].location.stack() == deck[b].location.stack(),
    ensures
        a == b,
{
    let _ = deck[a];
    let _ = deck[b];
}

fn area_in(areas: &[PlayArea], a: PlayArea) -> (r: bool)
    ensures
        r == areas@.contains(a),
{
    let mut k: usize = 0;
    while k < areas.len()
        invariant
            k <= areas@.len(),
            forall|m: int| 0 <= m < k ==> areas@[m] != a,
        decreases areas@.len() - k,
    {
        if areas[k] == a {
            return true;
        }
        k = k + 1;
    }
    false
}

fn find_stack(entries: &Vec<PlacedCard>, stack: (PlayArea, usize)) -> (r: Option<usize>)
    ensures
        match r {
            Some(k) => k < entries@.len() && entries@[k as int].location.stack() == stack,
            None => forall|k: int|
                0 <= k < entries@.len() ==> entries@[k].location.stack() != stack,
        },
{
    let mut k: usize = 0;
    while k < entries.len()
        invariant
            k <= entries@.len(),
            forall|m: int| 0 <= m < k ==> entries@[m].location.stack() != stack,
        decreases entries@.len() - k,
    {
        let (area, area_index) = entries[k].location.stack_id();
        if area == stack.0 && area_index == stack.1 {
            return Some(k);
        }
        k = k + 1;
    }
    None
}

/// What the scan for top cards knows after the first `n` cards of the deck:
/// entry `k` is card `w[k]`, the top of its pile so far, and every pile met
/// so far has an entry.
pub open spec fn tops_scanned(
    deck: Seq<Card>,
    areas: Seq<PlayArea>,
    n: int,
    w: Seq<int>,
    r: Seq<PlacedCard>,
) -> bool {
    &&& 0 <= n <= deck.len()
    &&& w.len() == r.len()
    &&& forall|k: int|
        #![trigger r[k]]
        0 <= k < w.len() ==> {
            &&& is_top_upto(deck, n, w[k])
            &&& areas.contains(deck[w[k]].location.area)
            &&& r[k] == placed(deck[w[k]])
        }
    &&& forall|i: int|
        #![trigger deck[i]]
        0 <= i < n && areas.contains(deck[i].location.area) ==> has_stack(
            r,
            deck[i].location.stack(),
        )
    &&& distinct_stacks(r)
}

/// Some entry belongs to pile `s`.
#[verifier::opaque]
pub open spec fn has_stack(r: Seq<PlacedCard>, s: (PlayArea, usize)) -> bool {
    exists|k: int| 0 <= k < r.len() && #[trigger] r[k].location.stack() == s
}

proof fn lemma_scan_skip(deck: Seq<Card>, areas: Seq<PlayArea>, n: int, w: Seq<int>, r: Seq<PlacedCard>)
    requires
        tops_scanned(deck, areas, n, w, r),
        n < deck.len(),
        !areas.contains(deck[n].location.area),
    ensures
        tops_scanned(deck, areas, n + 1, w, r),
{
    assert forall|k: int| 0 <= k < w.len() implies is_top_upto(deck, n + 1, w[k]) by {
        let _ = r[k];
        let _ = deck[n];
    }
}

proof fn lemma_scan_keep(
    deck: Seq<Card>,
    areas: Seq<PlayArea>,
    n: int,
    w: Seq<int>,
    r: Seq<PlacedCard>,
    k: int,
)
    requires
        tops_scanned(deck, areas, n, w, r),
        n < deck.len(),
        areas.contains(deck[n].location.area),
        0 <= k < r.len(),
        r[k].location.stack() == deck[n].location.stack(),
        deck[n].location.sort_index <= r[k].location.sort_index,
    ensures
        tops_scanned(deck, areas, n + 1, w, r),
{
    assert forall|m: int| 0 <= m < w.len() implies is_top_upto(deck, n + 1, w[m]) by {
        let _ = r[m];
        let _ = r[k];
        let _ = deck[n];
    }
    assert(has_stack(r, deck[n].location.stack())) by {
        reveal(has_stack);
        let _ = r[k];
    }
}

proof fn lemma_scan_replace(
    deck: Seq<Card>,
    areas: Seq<PlayArea>,
    n: int,
    w: Seq<int>,
    r: Seq<PlacedCard>,
    k: int,
)
    requires
        tops_scanned(deck, areas, n, w, r),
        n < deck.len(),
        areas.contains(deck[n].location.area),
        0 <= k < r.len(),
        r[k].location.stack() == deck[n].location.stack(),
        deck[n].location.sort_index > r[k].location.sort_index,
    ensures
        tops_scanned(deck, areas, n + 1, w.update(k, n), r.update(k, placed(deck[n]))),
{
    let w2 = w.update(k, n);
    let r2 = r.update(k, placed(deck[n]));
    assert forall|m: int| 0 <= m < w2.len() implies is_top_upto(deck, n + 1, w2[m]) by {
        let _ = r[m];
        let _ = r[k];
        let _ = deck[n];
    }
    assert forall|m: int| #![trigger r2[m]] 0 <= m < w2.len() implies {
        &&& is_top_upto(deck, n + 1, w2[m])
        &&& areas.contains(deck[w2[m]].location.area)
        &&& r2[m] == placed(deck[w2[m]])
    } by {
        let _ = r[m];
    }
    assert forall|i: int| 0 <= i < n + 1 && areas.contains(deck[i].location.area) implies has_stack(
        r2,
        #[trigger] deck[i].location.stack(),
    ) by {
        reveal(has_stack);
        if i == n {
            assert(r2[k].location.stack() == deck[i].location.stack());
        } else {
            let _ = deck[i];
            let m = choose|m: int| 0 <= m < r.len() && #[trigger] r[m].location.stack() == deck[i].location.stack();
            let _ = r[k];
            assert(r2[m].location.stack() == deck[i].location.stack());
        }
    }
    assert forall|a: int, b: int| 0 <= a < r2.len() && 0 <= b < r2.len() && a != b implies r2[a].location.stack()
        != r2[b].location.stack() by {
        let _ = r[a];
        let _ = r[b];
    }
}

proof fn lemma_scan_push(deck: Seq<Card>, areas: Seq<PlayArea>, n: int, w: Seq<int>, r: Seq<PlacedCard>)
    requires
        tops_scanned(deck, areas, n, w, r),
        n < deck.len(),
        areas.contains(deck[n].location.area),
        forall|k: int| 0 <= k < r.len() ==> r[k].location.stack() != deck[n].location.stack(),
    ensures
        tops_scanned(deck, areas, n + 1, w.push(n), r.push(placed(deck[n]))),
{
    let w2 = w.push(n);
    let r2 = r.push(placed(deck[n]));
    assert forall|m: int| 0 <= m < w.len() implies is_top_upto(deck, n + 1, w[m]) by {
        let _ = r[m];
        let _ = deck[n];
    }
    assert(is_top_upto(deck, n + 1, n)) by {
        assert forall|j: int| 0 <= j < n && deck[j].location.stack() == deck[n].location.stack() implies false by {
            let _ = deck[j];
            reveal(has_stack);
            let m = choose|m: int| 0 <= m < r.len() && #[trigger] r[m].location.stack() == deck[j].location.stack();
            let _ = r[m];
        }
    }
    assert forall|m: int| #![trigger r2[m]] 0 <= m < w2.len() implies {
        &&& is_top_upto(deck, n + 1, w2[m])
        &&& areas.contains(deck[w2[m]].location.area)
        &&& r2[m] == placed(deck[w2[m]])
    } by {
        if m < r.len() {
            let _ = r[m];
        }
    }
    assert forall|i: int| 0 <= i < n + 1 && areas.contains(deck[i].location.area) implies has_stack(
        r2,
        #[trigger] deck[i].location.stack(),
    ) by {
        reveal(has_stack);
        if i == n {
            assert(r2[r.len() as int].location.stack() == deck[i].location.stack());
        } else {
            let _ = deck[i];
            let m = choose|m: int| 0 <= m < r.len() && #[trigger] r[m].location.stack() == deck[i].location.stack();
            assert(r2[m].location.stack() == deck[i].location.stack());
        }
    }
    assert forall|a: int, b: int| 0 <= a < r2.len() && 0 <= b < r2.len() && a != b implies r2[a].location.stack()
        != r2[b].location.stack() by {
        if a < r.len() {
            let _ = r[a];
        }
        if b < r.len() {
            let _ = r[b];
        }
    }
}

/// Pile `k` of the piles that can receive a card: the four foundations,
/// then the tableau columns.
pub open spec fn base_stack(k: int) -> (PlayArea, usize) {
    if k < 4 {
        (PlayArea::Foundation, k as usize)
    } else {
        (PlayArea::Tableau, (k - 4) as usize)
    }
}

/// The bottom place of a pile, where a card put on the empty pile goes.
pub open spec fn base_location(s: (PlayArea, usize)) -> Location {
    Location { area: s.0, area_index: s.1, sort_index: 0, faceup: true }
}

/// The zone above a top card: the card itself, and the place just above it.
pub open spec fn zone_on(p: PlacedCard) -> DropZone {
    DropZone {
        card: Some(p.pcard),
        location: Location {
            area: p.location.area,
            area_index: p.location.area_index,
            sort_index: (p.location.sort_index + 1) as usize,
            faceup: true,
        },
    }
}

/// Pile `s` holds a card.
pub open spec fn has_top_in(deck: Seq<Card>, s: (PlayArea, usize)) -> bool {
    exists|i: int| is_top(deck, i) && deck[i].location.stack() == s
}

/// The drop zone of pile `s`: above its top card, or at its bottom if it is
/// empty.
pub open spec fn zone_spec(deck: Seq<Card>, s: (PlayArea, usize)) -> DropZone {
    if has_top_in(deck, s) {
        zone_on(placed(deck[choose|i: int| is_top(deck, i) && deck[i].location.stack() == s]))
    } else {
        DropZone { card: None, location: base_location(s) }
    }
}

/// One drop zone for each foundation and each of the `n` tableau columns,
/// in that order.
pub open spec fn drop_zones_spec(deck: Seq<Card>, n: int) -> Seq<DropZone> {
    Seq::new((4 + n) as nat, |k: int| zone_spec(deck, base_stack(k)))
}

/// No card lies at the greatest depth that a `usize` can count, so a card
/// can always be put above any other.
pub open spec fn indices_fit(deck: Seq<Card>) -> bool {
    forall|i: int| 0 <= i < deck.len() ==> (#[trigger] deck[i]).location.sort_index < usize::MAX
}

/// `card` may be put on `zone`: on a foundation, the next rank up of the
/// same suit; on a tableau column, the next rank down of the other colour.
/// Nothing may be put on an empty pile.
pub open spec fn legal(card: PlayingCard, zone: DropZone) -> bool {
    match zone.card {
        None => false,
        Some(top) => match zone.location.area {
            PlayArea::Foundation => card.suit == top.suit && card.rank - top.rank == 1,
            PlayArea::Tableau => color_of(card.suit) != color_of(top.suit) && card.rank - top.rank
                == -1,
            _ => false,
        },
    }
}

/// The move of `card` onto `zone`.
pub open spec fn move_to(card: PlayingCard, zone: DropZone) -> MoveData {
    MoveData { pcard: card, to: zone.location }
}

/// The moves of `card` onto each zone it may legally go to, in the order of
/// the zones.
pub open spec fn moves_for(card: PlayingCard, zones: Seq<DropZone>) -> Seq<MoveData>
    decreases zones.len(),
{
    if zones.len() == 0 {
        Seq::empty()
    } else {
        let rest = moves_for(card, zones.drop_last());
        if legal(card, zones.last()) {
            rest.push(move_to(card, zones.last()))
        } else {
            rest
        }
    }
}

/// The moves listed for a card are its legal moves, and there is one as
/// soon as some zone takes the card.
pub proof fn lemma_moves_for(card: PlayingCard, zones: Seq<DropZone>)
    ensures
        forall|x: int|
            0 <= x < moves_for(card, zones).len() ==> exists|k: int|
                0 <= k < zones.len() && legal(card, zones[k]) && #[trigger] moves_for(card, zones)[x]
                    == move_to(card, zones[k]),
        (exists|k: int| 0 <= k < zones.len() && legal(card, zones[k])) ==> moves_for(card, zones).len()
            > 0,
    decreases zones.len(),
{
    if zones.len() > 0 {
        let front = zones.drop_last();
        lemma_moves_for(card, front);
        let r = moves_for(card, zones);
        assert forall|x: int| 0 <= x < r.len() implies exists|k: int|
            0 <= k < zones.len() && legal(card, zones[k]) && #[trigger] r[x] == move_to(
                card,
                zones[k],
            ) by {
            if x < moves_for(card, front).len() {
                let k = choose|k: int|
                    0 <= k < front.len() && legal(card, front[k]) && #[trigger] moves_for(card, front)[x]
                        == move_to(card, front[k]);
                assert(zones[k] == front[k]);
            } else {
                assert(r[x] == move_to(card, zones[zones.len() - 1]));
            }
        }
        if exists|k: int| 0 <= k < zones.len() && legal(card, zones[k]) {
            let k = choose|k: int| 0 <= k < zones.len() && legal(card, zones[k]);
            if k < front.len() {
                assert(front[k] == zones[k]);
            }
        }
    }
}

/// Card `i` may be picked up: a face-up card of the tableau, at any depth,
/// or the top card of the waste pile or of a foundation.
pub open spec fn is_movable(deck: Seq<Card>, i: int) -> bool {
    &&& 0 <= i < deck.len()
    &&& {
        ||| deck[i].location.area == PlayArea::Tableau && deck[i].location.faceup
        ||| (deck[i].location.area == PlayArea::WastePile || deck[i].location.area
            == PlayArea::Foundation) && is_top(deck, i)
    }
}

/// Some card of the deck with face `c` may be picked up.
pub open spec fn movable_card(deck: Seq<Card>, c: PlayingCard) -> bool {
    exists|i: int| is_movable(deck, i) && deck[i].pcard == c
}

/// `r` lists exactly the faces of the cards that may be picked up.
pub open spec fn movable_listed(deck: Seq<Card>, r: Seq<PlayingCard>) -> bool {
    &&& forall|k: int| 0 <= k < r.len() ==> movable_card(deck, #[trigger] r[k])
    &&& forall|i: int| is_movable(deck, i) ==> r.contains(#[trigger] deck[i].pcard)
}

/// `m` is a legal move: it picks up a movable card and puts it on one of the
/// drop zones of a table with `n` tableau columns that may take it.
pub open spec fn is_candidate(deck: Seq<Card>, n: int, m: MoveData) -> bool {
    &&& movable_card(deck, m.pcard)
    &&& exists|k: int|
        0 <= k < 4 + n && legal(m.pcard, #[trigger] drop_zones_spec(deck, n)[k]) && m == move_to(
            m.pcard,
            drop_zones_spec(deck, n)[k],
        )
}

/// Some legal move exists.
pub open spec fn has_candidate(deck: Seq<Card>, n: int) -> bool {
    exists|m: MoveData| is_candidate(deck, n, m)
}

/// Card `i` is the first card of the deck with face `c`.
pub open spec fn first_with(deck: Seq<Card>, c: PlayingCard, i: int) -> bool {
    &&& 0 <= i < deck.len()
    &&& deck[i].pcard == c
    &&& forall|j: int| 0 <= j < i ==> (#[trigger] deck[j]).pcard != c
}

/// Some card of the deck has face `c`.
pub open spec fn in_deck(deck: Seq<Card>, c: PlayingCard) -> bool {
    exists|i: int| 0 <= i < deck.len() && deck[i].pcard == c
}

/// The deck after `m`: the first card with the face that `m` names now lies
/// where `m` puts it.
pub open spec fn applied(deck: Seq<Card>, m: MoveData) -> Seq<Card> {
    let i = choose|i: int| first_with(deck, m.pcard, i);
    deck.update(i, Card { pcard: m.pcard, location: m.to })
}

/// The card turned face up.
pub open spec fn turned_up(c: Card) -> Card {
    Card {
        pcard: c.pcard,
        location: Location {
            area: c.location.area,
            area_index: c.location.area_index,
            sort_index: c.location.sort_index,
            faceup: true,
        },
    }
}

/// The deck with the top card of every tableau column face up.
pub open spec fn revealed(deck: Seq<Card>) -> Seq<Card> {
    Seq::new(
        deck.len(),
        |i: int|
            if deck[i].location.area == PlayArea::Tableau && is_top(deck, i) {
                turned_up(deck[i])
            } else {
                deck[i]
            },
    )
}

/// Entry `k` of `r` is the face of card `src[k]`: a tableau card among the
/// first `n_faceup` entries, the card of top entry `k - n_faceup` after them.
pub open spec fn listed_from(
    deck: Seq<Card>,
    r: Seq<PlayingCard>,
    src: Seq<int>,
    n_faceup: int,
    tops: Seq<PlacedCard>,
    k: int,
) -> bool {
    &&& 0 <= src[k] < deck.len()
    &&& r[k] == deck[src[k]].pcard
    &&& k < n_faceup ==> deck[src[k]].location.area == PlayArea::Tableau
    &&& n_faceup <= k ==> {
        &&& deck[src[k]].location.area != PlayArea::Tableau
        &&& tops[k - n_faceup] == placed(deck[src[k]])
    }
}

/// Cards listed from different places of a deck of different cards, and
/// from different piles, are listed once each.
proof fn lemma_listed_once(
    deck: Seq<Card>,
    r: Seq<PlayingCard>,
    src: Seq<int>,
    n_faceup: int,
    tops: Seq<PlacedCard>,
)
    requires
        distinct_faces(deck),
        distinct_stacks(tops),
        src.len() == r.len(),
        0 <= n_faceup <= r.len(),
        r.len() - n_faceup <= tops.len(),
        forall|k: int| 0 <= k < r.len() ==> #[trigger] listed_from(deck, r, src, n_faceup, tops, k),
        forall|a: int, b: int| 0 <= a < b < n_faceup ==> #[trigger] src[a] < #[trigger] src[b],
    ensures
        r.no_duplicates(),
{
    assert forall|a: int, b: int| 0 <= a < r.len() && 0 <= b < r.len() && a != b implies r[a] != r[b] by {
        assert(listed_from(deck, r, src, n_faceup, tops, a));
        assert(listed_from(deck, r, src, n_faceup, tops, b));
        if r[a] == r[b] {
            assert(src[a] == src[b]);
            if a < n_faceup && b < n_faceup {
                if a < b {
                    assert(src[a] < src[b]);
                } else {
                    assert(src[b] < src[a]);
                }
            } else if n_faceup <= a && n_faceup <= b {
                assert(tops[a - n_faceup] == tops[b - n_faceup]);
            }
        }
    }
}

/// What a sequence contains, it still contains after a push.
proof fn lemma_push_keeps<A>(s: Seq<A>, a: A)
    ensures
        forall|x: A| s.contains(x) ==> #[trigger] s.push(a).contains(x),
        s.push(a).contains(a),
{
    assert forall|x: A| s.contains(x) implies #[trigger] s.push(a).contains(x) by {
        let k = choose|k: int| 0 <= k < s.len() && s[k] == x;
        assert(s.push(a)[k] == x);
    }
    assert(s.push(a)[s.len() as int] == a);
}

fn find_zone(zones: &Vec<DropZone>, stack: (PlayArea, usize)) -> (r: Option<usize>)
    ensures
        match r {
            Some(k) => k < zones@.len() && zones@[k as int].location.stack() == stack,
            None => forall|k: int| 0 <= k < zones@.len() ==> zones@[k].location.stack() != stack,
        },
{
    let mut k: usize = 0;
    while k < zones.len()
        invariant
            k <= zones@.len(),
            forall|m: int| 0 <= m < k ==> zones@[m].location.stack() != stack,
        decreases zones@.len() - k,
    {
        let (area, area_index) = zones[k].location.stack_id();
        if area == stack.0 && area_index == stack.1 {
            return Some(k);
        }
        k = k + 1;
    }
    None
}

impl Dealer {
    /// The top card of every pile of the given areas that holds a card, one
    /// entry per pile.
    pub fn get_top_card_per_stack(&self, areas: &[PlayArea]) -> (r: Vec<PlacedCard>)
        ensures
            forall|k: int| 0 <= k < r@.len() ==> is_top_entry(self.deck@, areas@, #[trigger] r@[k]),
            forall|i: int|
                is_top(self.deck@, i) && areas@.contains(self.deck@[i].location.area)
                    ==> r@.contains(#[trigger] placed(self.deck@[i])),
            distinct_stacks(r@),
    {
        let ghost deck = self.deck@;
        let mut top_cards: Vec<PlacedCard> = Vec::new();
        let ghost mut w: Seq<int> = Seq::empty();
        let mut idx: usize = 0;
        while idx < self.deck.len()
            invariant
                deck == self.deck@,
                tops_scanned(deck, areas@, idx as int, w, top_cards@),
            decreases deck.len() - idx,
        {
            let card = self.deck[idx];
            if area_in(areas, card.location.area) {
                let placed_card = PlacedCard { pcard: card.pcard, location: card.location };
                match find_stack(&top_cards, card.location.stack_id()) {
                    Some(k) => {
                        if placed_card.location.sort_index > top_cards[k].location.sort_index {
                            proof {
                                lemma_scan_replace(deck, areas@, idx as int, w, top_cards@, k as int);
                                w = w.update(k as int, idx as int);
                            }
                            top_cards.set(k, placed_card);
                        } else {
                            proof {
                                lemma_scan_keep(deck, areas@, idx as int, w, top_cards@, k as int);
                            }
                        }
                    },
                    None => {
                        proof {
                            lemma_scan_push(deck, areas@, idx as int, w, top_cards@);
                            w = w.push(idx as int);
                        }
                        top_cards.push(placed_card);
                    },
                }
            } else {
                proof {
                    lemma_scan_skip(deck, areas@, idx as int, w, top_cards@);
                }
            }
            idx = idx + 1;
        }
        proof {
            assert forall|k: int| 0 <= k < top_cards@.len() implies is_top_entry(
                deck,
                areas@,
                #[trigger] top_cards@[k],
            ) by {
                assert(idx == deck.len());
                let _ = top_cards@[k];
                assert(is_top(deck, w[k]) && areas@.contains(deck[w[k]].location.area)
                    && top_cards@[k] == placed(deck[w[k]]));
            }
            assert forall|i: int|
                is_top(deck, i) && areas@.contains(deck[i].location.area) implies top_cards@.contains(
                #[trigger] placed(deck[i]),
            ) by {
                let _ = deck[i];
                reveal(has_stack);
                let k = choose|k: int|
                    0 <= k < top_cards@.len() && #[trigger] top_cards@[k].location.stack()
                        == deck[i].location.stack();
                lemma_top_unique(deck, deck.len() as int, w[k], i);
                assert(top_cards@[k] == placed(deck[i]));
            }
        }
        top_cards
    }

    /// The bottom places of the four foundations.
    fn get_base_foundations() -> (r: Vec<Location>)
        ensures
            r@.len() == 4,
            forall|k: int| 0 <= k < 4 ==> #[trigger] r@[k] == base_location(base_stack(k)),
    {
        let mut foundations: Vec<Location> = Vec::new();
        let mut area_index: usize = 0;
        while area_index < 4
            invariant
                area_index <= 4,
                foundations@.len() == area_index,
                forall|k: int| 0 <= k < area_index ==> #[trigger] foundations@[k] == base_location(base_stack(k)),
            decreases 4 - area_index,
        {
            foundations.push(
                Location { area: PlayArea::Foundation, area_index, sort_index: 0, faceup: true },
            );
            area_index = area_index + 1;
        }
        foundations
    }

    /// The bottom places of the tableau columns.
    fn get_base_tableau(n_columns: i32) -> (r: Vec<Location>)
        requires
            0 <= n_columns,
        ensures
            r@.len() == n_columns,
            forall|k: int| 0 <= k < n_columns ==> #[trigger] r@[k] == base_location(base_stack(k + 4)),
    {
        let mut tableau: Vec<Location> = Vec::new();
        let mut area_index: usize = 0;
        while area_index < n_columns as usize
            invariant
                0 <= n_columns,
                area_index <= n_columns,
                tableau@.len() == area_index,
                forall|k: int| 0 <= k < area_index ==> #[trigger] tableau@[k] == base_location(base_stack(k + 4)),
            decreases n_columns - area_index,
        {
            tableau.push(Location { area: PlayArea::Tableau, area_index, sort_index: 0, faceup: true });
            area_index = area_index + 1;
        }
        tableau
    }

    /// Every pile that a card may be dropped on, with the card now on top of
    /// it: one zone for each foundation and each tableau column, empty or
    /// not, in that order.
    pub fn get_drop_zones(&self) -> (r: Vec<DropZone>)
        requires
            0 <= self.n_columns,
            indices_fit(self.deck@),
        ensures
            r@ == drop_zones_spec(self.deck@, self.n_columns as int),
    {
        let ghost deck = self.deck@;
        let n = self.n_columns;
        let mut base_locations: Vec<Location> = Vec::new();
        let mut foundations = Dealer::get_base_foundations();
        let mut tableau = Dealer::get_base_tableau(n);
        base_locations.append(&mut foundations);
        base_locations.append(&mut tableau);

        // Piles that hold no card are still places to drop a card on.
        let mut zones: Vec<DropZone> = Vec::new();
        let mut k: usize = 0;
        while k < base_locations.len()
            invariant
                base_locations@.len() == 4 + n,
                forall|j: int| 0 <= j < 4 + n ==> #[trigger] base_locations@[j] == base_location(base_stack(j)),
                k <= base_locations@.len(),
                zones@.len() == k,
                forall|j: int| 0 <= j < k ==> #[trigger] zones@[j] == (DropZone { card: None, location: base_location(base_stack(j)) }),
            decreases base_locations@.len() - k,
        {
            zones.push(DropZone { card: None, location: base_locations[k] });
            k = k + 1;
        }

        // Above the top card of each pile that holds one.
        let areas: Vec<PlayArea> = vec![PlayArea::Tableau, PlayArea::Foundation];
        let top_cards = self.get_top_card_per_stack(areas.as_slice());
        let mut m: usize = 0;
        while m < top_cards.len()
            invariant
                deck == self.deck@,
                indices_fit(deck),
                forall|t: int| 0 <= t < top_cards@.len() ==> is_top_entry(deck, areas@, #[trigger] top_cards@[t]),
                distinct_stacks(top_cards@),
                m <= top_cards@.len(),
                zones@.len() == 4 + n,
                forall|j: int| 0 <= j < 4 + n ==> (#[trigger] zones@[j]).location.stack() == base_stack(j),
                forall|j: int|
                    0 <= j < 4 + n && (forall|t: int| 0 <= t < m ==> top_cards@[t].location.stack() != base_stack(j))
                        ==> #[trigger] zones@[j] == (DropZone { card: None, location: base_location(base_stack(j)) }),
                forall|j: int, t: int|
                    0 <= j < 4 + n && 0 <= t < m && top_cards@[t].location.stack() == base_stack(j)
                        ==> #[trigger] zones@[j] == zone_on(#[trigger] top_cards@[t]),
            decreases top_cards@.len() - m,
        {
            let top = top_cards[m];
            proof {
                assert(is_top_entry(deck, areas@, top_cards@[m as int]));
                let i = choose|i: int| is_top(deck, i) && areas@.contains(deck[i].location.area) && top == placed(deck[i]);
                let _ = deck[i];
            }
            match find_zone(&zones, top.location.stack_id()) {
                Some(j) => {
                    let mut drop_location = top.location;
                    drop_location.sort_index = drop_location.sort_index + 1;
                    drop_location.faceup = true;
                    zones.set(j, DropZone { card: Some(top.pcard), location: drop_location });
                    proof {
                        assert forall|t: int| 0 <= t < m && top_cards@[t].location.stack() == base_stack(j as int) implies false by {
                            assert(top_cards@[t].location.stack() == top_cards@[m as int].location.stack());
                        }
                    }
                },
                None => {},
            }
            m = m + 1;
        }
        proof {
            assert forall|j: int| 0 <= j < 4 + n implies #[trigger] zones@[j] == zone_spec(deck, base_stack(j)) by {
                let s = base_stack(j);
                if has_top_in(deck, s) {
                    let i = choose|i: int| is_top(deck, i) && deck[i].location.stack() == s;
                    assert(areas@.contains(deck[i].location.area)) by {
                        assert(areas@[0] == PlayArea::Tableau);
                        assert(areas@[1] == PlayArea::Foundation);
                    }
                    assert(top_cards@.contains(placed(deck[i])));
                    let t = choose|t: int| 0 <= t < top_cards@.len() && top_cards@[t] == placed(deck[i]);
                    assert(zones@[j] == zone_on(top_cards@[t]));
                } else {
                    assert forall|t: int| 0 <= t < top_cards@.len() implies top_cards@[t].location.stack() != s by {
                        assert(is_top_entry(deck, areas@, top_cards@[t]));
                    }
                }
            }
            assert(zones@ =~= drop_zones_spec(deck, n as int));
        }
        zones
    }

    /// Whether `from` may be put on `drop_zone`, and if so the move that
    /// does it.
    pub fn drop_ok(from: &PlayingCard, drop_zone: &DropZone) -> (r: Option<MoveData>)
        ensures
            r == if legal(*from, *drop_zone) {
                Some(move_to(*from, *drop_zone))
            } else {
                None
            },
    {
        let move_data = MoveData { pcard: *from, to: drop_zone.location };
        match drop_zone.card {
            Some(card) => {
                let suit_matches = from.suit == card.suit;
                let color_matches = from.suit.color() == card.suit.color();
                let rank_delta: i64 = from.rank as i64 - card.rank as i64;
                match drop_zone.location.area {
                    PlayArea::Foundation if suit_matches && rank_delta == 1 => Some(move_data),
                    PlayArea::Tableau if !color_matches && rank_delta == -1 => Some(move_data),
                    _ => None,
                }
            },
            None => None,
        }
    }

    /// Whether `card` may be put on `zone`.
    pub fn is_legal(card: &PlayingCard, zone: &DropZone) -> (r: bool)
        ensures
            r == legal(*card, *zone),
    {
        Dealer::drop_ok(card, zone).is_some()
    }

    /// The moves of `card` onto each of `drop_zones` that may take it, in the
    /// order of the zones.
    pub fn get_moves(card: &PlayingCard, drop_zones: &[DropZone]) -> (r: Vec<MoveData>)
        ensures
            r@ == moves_for(*card, drop_zones@),
    {
        let mut moves: Vec<MoveData> = Vec::new();
        let mut k: usize = 0;
        while k < drop_zones.len()
            invariant
                k <= drop_zones@.len(),
                moves@ == moves_for(*card, drop_zones@.take(k as int)),
            decreases drop_zones@.len() - k,
        {
            proof {
                assert(drop_zones@.take(k + 1).drop_last() =~= drop_zones@.take(k as int));
            }
            match Dealer::drop_ok(card, &drop_zones[k]) {
                Some(move_data) => moves.push(move_data),
                None => {},
            }
            k = k + 1;
        }
        proof {
            assert(drop_zones@.take(k as int) =~= drop_zones@);
        }
        moves
    }

    /// The cards that may be picked up: every face-up card of the tableau,
    /// and the top cards of the waste pile and of the foundations. Where no
    /// two cards of the deck share a face, each is listed once.
    pub fn get_movable(&self) -> (r: Vec<PlayingCard>)
        ensures
            movable_listed(self.deck@, r@),
            distinct_faces(self.deck@) ==> r@.no_duplicates(),
    {
        let ghost deck = self.deck@;
        let mut movable: Vec<PlayingCard> = Vec::new();
        // Position in the deck of each card listed.
        let ghost mut src: Seq<int> = Seq::empty();
        let mut idx: usize = 0;
        while idx < self.deck.len()
            invariant
                deck == self.deck@,
                idx <= deck.len(),
                src.len() == movable@.len(),
                forall|k: int|
                    #![trigger movable@[k]]
                    0 <= k < movable@.len() ==> 0 <= src[k] < idx && movable@[k] == deck[src[k]].pcard
                        && deck[src[k]].location.area == PlayArea::Tableau,
                forall|a: int, b: int| 0 <= a < b < src.len() ==> #[trigger] src[a] < #[trigger] src[b],
                forall|k: int| 0 <= k < movable@.len() ==> movable_card(deck, #[trigger] movable@[k]),
                forall|i: int|
                    0 <= i < idx && deck[i].location.area == PlayArea::Tableau && deck[i].location.faceup
                        ==> movable@.contains(#[trigger] deck[i].pcard),
            decreases deck.len() - idx,
        {
            let card = self.deck[idx];
            match card.location.area {
                PlayArea::Tableau if card.location.faceup => {
                    let ghost prev = movable@;
                    proof {
                        assert(is_movable(deck, idx as int));
                    }
                    movable.push(card.pcard);
                    proof {
                        let prev_src = src;
                        src = src.push(idx as int);
                        lemma_push_keeps(prev, card.pcard);
                        assert(movable@[movable@.len() - 1] == deck[idx as int].pcard);
                        assert forall|k: int| 0 <= k < movable@.len() implies movable_card(deck, #[trigger] movable@[k]) by {
                            if k < prev.len() {
                                assert(movable@[k] == prev[k]);
                            }
                        }
                        assert forall|k: int|
                            #![trigger movable@[k]]
                            0 <= k < movable@.len() implies 0 <= src[k] < idx + 1 && movable@[k] == deck[src[k]].pcard
                                && deck[src[k]].location.area == PlayArea::Tableau by {
                            if k < prev.len() {
                                assert(movable@[k] == prev[k]);
                                assert(src[k] == prev_src[k]);
                            }
                        }
                        assert forall|a: int, b: int| 0 <= a < b < src.len() implies #[trigger] src[a] < #[trigger] src[b] by {
                            if b < prev_src.len() {
                                assert(src[a] == prev_src[a] && src[b] == prev_src[b]);
                            } else {
                                let _ = movable@[a];
                                assert(movable@[a] == prev[a]);
                                assert(src[a] == prev_src[a]);
                            }
                        }
                    }
                },
                _ => {},
            }
            idx = idx + 1;
        }

        let areas: Vec<PlayArea> = vec![PlayArea::WastePile, PlayArea::Foundation];
        let top_cards = self.get_top_card_per_stack(areas.as_slice());
        let ghost n_faceup: int = movable@.len() as int;
        proof {
            assert forall|k: int|
                #![trigger movable@[k]]
                0 <= k < movable@.len() implies listed_from(deck, movable@, src, n_faceup, top_cards@, k) by {}
        }
        let mut m: usize = 0;
        while m < top_cards.len()
            invariant
                deck == self.deck@,
                forall|t: int| 0 <= t < top_cards@.len() ==> is_top_entry(deck, areas@, #[trigger] top_cards@[t]),
                areas@ == seq![PlayArea::WastePile, PlayArea::Foundation],
                m <= top_cards@.len(),
                0 <= n_faceup,
                movable@.len() == n_faceup + m,
                forall|k: int| 0 <= k < movable@.len() ==> movable_card(deck, #[trigger] movable@[k]),
                forall|i: int|
                    0 <= i < deck.len() && deck[i].location.area == PlayArea::Tableau && deck[i].location.faceup
                        ==> movable@.contains(#[trigger] deck[i].pcard),
                forall|t: int| 0 <= t < m ==> movable@[n_faceup + t] == (#[trigger] top_cards@[t]).pcard,
                distinct_stacks(top_cards@),
                src.len() == movable@.len(),
                forall|k: int|
                    #![trigger movable@[k]]
                    0 <= k < movable@.len() ==> listed_from(deck, movable@, src, n_faceup, top_cards@, k),
                forall|a: int, b: int| 0 <= a < b < n_faceup ==> #[trigger] src[a] < #[trigger] src[b],
            decreases top_cards@.len() - m,
        {
            let ghost i = choose|i: int| is_top(deck, i) && areas@.contains(deck[i].location.area) && top_cards@[m as int] == placed(deck[i]);
            proof {
                assert(is_top_entry(deck, areas@, top_cards@[m as int]));
                assert(is_movable(deck, i));
            }
            let ghost prev = movable@;
            movable.push(top_cards[m].pcard);
            proof {
                assert(movable@ == prev.push(top_cards@[m as int].pcard));
                let prev_src = src;
                src = src.push(i);
                assert(deck[i].location.area != PlayArea::Tableau) by {
                    assert(areas@[0] == PlayArea::WastePile);
                    assert(areas@[1] == PlayArea::Foundation);
                }
                assert forall|k: int|
                    #![trigger movable@[k]]
                    0 <= k < movable@.len() implies listed_from(deck, movable@, src, n_faceup, top_cards@, k) by {
                    if k < prev.len() {
                        let _ = prev[k];
                        assert(listed_from(deck, prev, prev_src, n_faceup, top_cards@, k));
                    }
                }
                assert forall|a: int, b: int| 0 <= a < b < n_faceup implies #[trigger] src[a] < #[trigger] src[b] by {
                    assert(src[a] == prev_src[a] && src[b] == prev_src[b]);
                }
                lemma_push_keeps(prev, top_cards@[m as int].pcard);
                assert forall|k: int| 0 <= k < movable@.len() implies movable_card(deck, #[trigger] movable@[k]) by {
                    if k < prev.len() {
                        assert(movable@[k] == prev[k]);
                    }
                }
                assert forall|t: int| 0 <= t < m + 1 implies movable@[n_faceup + t] == (#[trigger] top_cards@[t]).pcard by {
                    if t < m {
                        assert(0 <= n_faceup + t < prev.len());
                        assert(movable@[n_faceup + t] == prev[n_faceup + t]);
                    } else {
                        assert(n_faceup + t == prev.len());
                    }
                }
            }
            m = m + 1;
        }
        proof {
            assert forall|i: int| is_movable(deck, i) implies movable@.contains(#[trigger] deck[i].pcard) by {
                if !(deck[i].location.area == PlayArea::Tableau && deck[i].location.faceup) {
                    assert(areas@.contains(deck[i].location.area)) by {
                        assert(areas@[0] == PlayArea::WastePile);
                        assert(areas@[1] == PlayArea::Foundation);
                    }
                    assert(top_cards@.contains(placed(deck[i])));
                    let t = choose|t: int| 0 <= t < top_cards@.len() && top_cards@[t] == placed(deck[i]);
                    assert(movable@[n_faceup + t] == deck[i].pcard);
                }
            }
            if distinct_faces(deck) {
                lemma_listed_once(deck, movable@, src, n_faceup, top_cards@);
            }
        }
        movable
    }

    /// A legal move, if there is any. Which one is left open when there are
    /// several.
    pub fn get_best_move(&self) -> (r: Option<MoveData>)
        requires
            0 <= self.n_columns,
            indices_fit(self.deck@),
        ensures
            match r {
                Some(m) => is_candidate(self.deck@, self.n_columns as int, m),
                None => !has_candidate(self.deck@, self.n_columns as int),
            },
    {
        let ghost deck = self.deck@;
        let ghost n = self.n_columns as int;
        // Places cards can be dropped
        let drop_zones = self.get_drop_zones();
        // Cards that can be legally moved
        let movable = self.get_movable();
        // Cards that can be legally moved and have a legal place to be dropped
        let mut legal_moves: Vec<MoveData> = Vec::new();
        let mut t: usize = 0;
        while t < movable.len()
            invariant
                0 <= n,
                drop_zones@ == drop_zones_spec(deck, n),
                forall|k: int| 0 <= k < movable@.len() ==> movable_card(deck, #[trigger] movable@[k]),
                t <= movable@.len(),
                forall|x: int| 0 <= x < legal_moves@.len() ==> is_candidate(deck, n, #[trigger] legal_moves@[x]),
                legal_moves@.len() == 0 ==> forall|u: int, k: int|
                    0 <= u < t && 0 <= k < 4 + n ==> !legal(#[trigger] movable@[u], #[trigger] drop_zones@[k]),
            decreases movable@.len() - t,
        {
            let ghost prev = legal_moves@;
            let mut moves = Dealer::get_moves(&movable[t], drop_zones.as_slice());
            proof {
                assert(moves@ == moves_for(movable@[t as int], drop_zones@));
                lemma_moves_for(movable@[t as int], drop_zones@);
                assert forall|x: int| 0 <= x < moves@.len() implies is_candidate(deck, n, #[trigger] moves@[x]) by {
                    let k = choose|k: int|
                        0 <= k < drop_zones@.len() && legal(movable@[t as int], drop_zones@[k])
                            && #[trigger] moves_for(movable@[t as int], drop_zones@)[x] == move_to(movable@[t as int], drop_zones@[k]);
                    assert(moves@[x] == move_to(movable@[t as int], drop_zones@[k]));
                    assert(movable_card(deck, movable@[t as int]));
                    assert(legal(moves@[x].pcard, drop_zones_spec(deck, n)[k]));
                    assert(0 <= k < 4 + n);
                    assert(moves@[x] == move_to(moves@[x].pcard, drop_zones_spec(deck, n)[k]));
                }
            }
            legal_moves.append(&mut moves);
            proof {
                assert forall|x: int| 0 <= x < legal_moves@.len() implies is_candidate(deck, n, #[trigger] legal_moves@[x]) by {
                    if x < prev.len() {
                        assert(legal_moves@[x] == prev[x]);
                    } else {
                        assert(legal_moves@[x] == moves_for(movable@[t as int], drop_zones@)[x - prev.len()]);
                    }
                }
            }
            t = t + 1;
        }
        // The first one found
        if legal_moves.len() > 0 {
            Some(legal_moves[0])
        } else {
            proof {
                assert forall|m: MoveData| !is_candidate(deck, n, m) by {
                    if is_candidate(deck, n, m) {
                        let i = choose|i: int| is_movable(deck, i) && deck[i].pcard == m.pcard;
                        assert(movable@.contains(deck[i].pcard));
                        let u = choose|u: int| 0 <= u < movable@.len() && movable@[u] == deck[i].pcard;
                        let k = choose|k: int|
                            0 <= k < 4 + n && legal(m.pcard, #[trigger] drop_zones_spec(deck, n)[k]) && m == move_to(
                                m.pcard,
                                drop_zones_spec(deck, n)[k],
                            );
                        assert(!legal(movable@[u], drop_zones@[k]));
                    }
                }
            }
            None
        }
    }

    /// Position of the first card of the deck with face `pcard`.
    fn find_card(&self, pcard: PlayingCard) -> (r: Option<usize>)
        ensures
            match r {
                Some(i) => first_with(self.deck@, pcard, i as int),
                None => !in_deck(self.deck@, pcard),
            },
    {
        let mut i: usize = 0;
        while i < self.deck.len()
            invariant
                i <= self.deck@.len(),
                forall|j: int| 0 <= j < i ==> (#[trigger] self.deck@[j]).pcard != pcard,
            decreases self.deck@.len() - i,
        {
            if self.deck[i].pcard == pcard {
                return Some(i);
            }
            i = i + 1;
        }
        None
    }

    /// Carries out `move_data`: the card it names now lies where it puts it.
    pub fn apply_move(&mut self, move_data: &MoveData) -> (r: Result<(), CardNotFound>)
        ensures
            final(self).n_columns == old(self).n_columns,
            r is Ok <==> in_deck(old(self).deck@, move_data.pcard),
            r is Ok ==> final(self).deck@ == applied(old(self).deck@, *move_data),
            r is Err ==> final(self).deck@ == old(self).deck@,
    {
        match self.find_card(move_data.pcard) {
            Some(i) => {
                proof {
                    assert(first_with(self.deck@, move_data.pcard, i as int));
                    let j = choose|j: int| first_with(self.deck@, move_data.pcard, j);
                    if j < i {
                        let _ = self.deck@[j];
                    }
                    if i < j {
                        let _ = self.deck@[i as int];
                    }
                }
                self.deck.set(i, Card { pcard: move_data.pcard, location: move_data.to });
                Ok(())
            },
            None => Err(CardNotFound {}),
        }
    }

    /// Makes one legal move, if there is any; tells whether a card moved.
    pub fn auto_move(&mut self) -> (r: bool)
        requires
            0 <= old(self).n_columns,
            indices_fit(old(self).deck@),
        ensures
            final(self).n_columns == old(self).n_columns,
            r == has_candidate(old(self).deck@, old(self).n_columns as int),
            !has_candidate(old(self).deck@, old(self).n_columns as int) ==> !r && final(self).deck@
                == old(self).deck@,
            r ==> exists|m: MoveData|
                is_candidate(old(self).deck@, old(self).n_columns as int, m) && final(self).deck@
                    == applied(old(self).deck@, m),
    {
        match self.get_best_move() {
            Some(move_data) => {
                proof {
                    let i = choose|i: int| is_movable(self.deck@, i) && self.deck@[i].pcard == move_data.pcard;
                    assert(in_deck(self.deck@, move_data.pcard));
                }
                let _ = self.apply_move(&move_data);
                true
            },
            None => false,
        }
    }

    /// Brings the cards in line with their places after a move: the top
    /// card of every tableau column is turned face up. (Where each card is
    /// drawn follows from its location alone.)
    pub fn update_positions(&mut self)
        requires
            distinct_faces(old(self).deck@),
        ensures
            final(self).n_columns == old(self).n_columns,
            final(self).deck@ == revealed(old(self).deck@),
    {
        let ghost before = self.deck@;
        let areas: Vec<PlayArea> = vec![PlayArea::Tableau];
        let top_cards = self.get_top_card_per_stack(areas.as_slice());
        let ghost mut flagged: Seq<bool> = Seq::new(before.len(), |i: int| false);
        let mut m: usize = 0;
        while m < top_cards.len()
            invariant
                self.n_columns == old(self).n_columns,
                distinct_faces(before),
                areas@ == seq![PlayArea::Tableau],
                forall|t: int| 0 <= t < top_cards@.len() ==> is_top_entry(before, areas@, #[trigger] top_cards@[t]),
                m <= top_cards@.len(),
                flagged.len() == before.len(),
                self.deck@.len() == before.len(),
                forall|j: int|
                    0 <= j < before.len() ==> #[trigger] self.deck@[j] == if flagged[j] {
                        turned_up(before[j])
                    } else {
                        before[j]
                    },
                forall|j: int|
                    0 <= j < before.len() && #[trigger] flagged[j] ==> before[j].location.area == PlayArea::Tableau
                        && is_top(before, j),
                forall|t: int, j: int|
                    0 <= t < m && 0 <= j < before.len() && #[trigger] top_cards@[t] == placed(#[trigger] before[j])
                        ==> flagged[j],
            decreases top_cards@.len() - m,
        {
            let top = top_cards[m];
            let ghost i0 = choose|i: int| is_top(before, i) && areas@.contains(before[i].location.area) && top == placed(before[i]);
            proof {
                assert(is_top_entry(before, areas@, top_cards@[m as int]));
                let _ = self.deck@[i0];
                assert(in_deck(self.deck@, top.pcard));
            }
            match self.find_card(top.pcard) {
                Some(i) => {
                    proof {
                        let _ = self.deck@[i as int];
                        assert(before[i as int].pcard == top.pcard);
                        assert(i == i0);
                        flagged = flagged.update(i as int, true);
                    }
                    let mut card = self.deck[i];
                    card.location.faceup = true;
                    self.deck.set(i, card);
                },
                None => {},
            }
            proof {
                assert forall|t: int, j: int|
                    0 <= t < m + 1 && 0 <= j < before.len() && #[trigger] top_cards@[t] == placed(#[trigger] before[j])
                        implies flagged[j] by {
                    if t == m {
                        assert(before[j].pcard == before[i0].pcard);
                    }
                }
            }
            m = m + 1;
        }
        proof {
            assert forall|j: int| 0 <= j < before.len() implies #[trigger] self.deck@[j] == revealed(before)[j] by {
                if before[j].location.area == PlayArea::Tableau && is_top(before, j) {
                    assert(areas@.contains(before[j].location.area)) by {
                        assert(areas@[0] == PlayArea::Tableau);
                    }
                    assert(top_cards@.contains(placed(before[j])));
                    let t = choose|t: int| 0 <= t < top_cards@.len() && top_cards@[t] == placed(before[j]);
                    assert(flagged[j]);
                }
            }
            assert(self.deck@ =~= revealed(before));
        }
    }
}

} // verus!
