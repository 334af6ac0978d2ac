use vstd::prelude::*;

use crate::card::Card;
use crate::dealer::{
    base_stack, drop_zones_spec, has_top_in, is_movable, is_top, movable_card, movable_listed,
};
use crate::dropzone::DropZone;
use crate::pcard::PlayingCard;

verus! {

/// The drop zones of a table with `n` tableau columns are one for each of
/// the four foundations and one for each column, whether the pile is empty
/// or not, and never two for the same pile.
pub proof fn lemma_drop_zones_complete(deck: Seq<Card>, n: int)
    requires
        0 <= n <= i32::MAX,
    ensures
        drop_zones_spec(deck, n).len() == 4 + n,
        forall|k: int|
            0 <= k < 4 + n ==> (#[trigger] drop_zones_spec(deck, n)[k]).location.stack() == base_stack(k),
        forall|a: int, b: int|
            0 <= a < 4 + n && 0 <= b < 4 + n && a != b ==> (#[trigger] drop_zones_spec(deck, n)[a]).location.stack()
                != (#[trigger] drop_zones_spec(deck, n)[b]).location.stack(),
{
    assert forall|k: int| 0 <= k < 4 + n implies (#[trigger] drop_zones_spec(deck, n)[k]).location.stack()
        == base_stack(k) by {
        let s = base_stack(k);
        if has_top_in(deck, s) {
            let i = choose|i: int| is_top(deck, i) && deck[i].location.stack() == s;
        }
    }
    assert forall|a: int, b: int| 0 <= a < 4 + n && 0 <= b < 4 + n && a != b implies base_stack(a)
        != base_stack(b) by {}
}

/// Asking twice about the same table gives the same answers: the same drop
/// zones, and the same set of cards that may be picked up.
pub proof fn lemma_queries_repeatable(
    deck: Seq<Card>,
    n: int,
    zones1: Seq<DropZone>,
    zones2: Seq<DropZone>,
    movable1: Seq<PlayingCard>,
    movable2: Seq<PlayingCard>,
)
    requires
        zones1 == drop_zones_spec(deck, n),
        zones2 == drop_zones_spec(deck, n),
        movable_listed(deck, movable1),
        movable_listed(deck, movable2),
    ensures
        zones1 == zones2,
        movable1.to_set() == movable2.to_set(),
{
    assert forall|c: PlayingCard| movable1.contains(c) implies movable2.contains(c) by {
        let k = choose|k: int| 0 <= k < movable1.len() && movable1[k] == c;
        assert(movable_card(deck, movable1[k]));
        let i = choose|i: int| is_movable(deck, i) && deck[i].pcard == c;
    }
    assert forall|c: PlayingCard| movable2.contains(c) implies movable1.contains(c) by {
        let k = choose|k: int| 0 <= k < movable2.len() && movable2[k] == c;
        assert(movable_card(deck, movable2[k]));
        let i = choose|i: int| is_movable(deck, i) && deck[i].pcard == c;
    }
    assert(movable1.to_set() =~= movable2.to_set());
}

} // verus!
