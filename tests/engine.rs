use solitaire::card::Card;
use solitaire::dealer::{CardNotFound, Dealer};
use solitaire::dropzone::DropZone;
use solitaire::location::Location;
use solitaire::movedata::MoveData;
use solitaire::pcard::PlayingCard;
use solitaire::play_area::PlayArea;
use solitaire::settings::Settings;
use solitaire::suit::{Suit, SuitColor};

fn pc(rank: i32, suit: Suit) -> PlayingCard {
    PlayingCard { rank, suit }
}

fn loc(area: PlayArea, area_index: usize, sort_index: usize, faceup: bool) -> Location {
    Location { area, area_index, sort_index, faceup }
}

fn card_at(rank: i32, suit: Suit, location: Location) -> Card {
    Card { pcard: pc(rank, suit), location }
}

fn zone(card: Option<PlayingCard>, area: PlayArea) -> DropZone {
    DropZone { card, location: loc(area, 0, 1, true) }
}

#[test]
fn suit_colors() {
    assert_eq!(Suit::Spade.color(), SuitColor::Black);
    assert_eq!(Suit::Club.color(), SuitColor::Black);
    assert_eq!(Suit::Diamond.color(), SuitColor::Red);
    assert_eq!(Suit::Heart.color(), SuitColor::Red);
}

#[test]
fn default_settings() {
    let s = Settings::default();
    assert_eq!(s.n_columns, 7);
    assert_eq!(s.draw_rate, 3);
}

#[test]
fn location_copy_and_stack_id() {
    let mut a = loc(PlayArea::DrawPile, 0, 0, false);
    let b = loc(PlayArea::Tableau, 3, 5, true);
    a.copy_from(&b);
    assert_eq!(a, b);
    assert_eq!(a.stack_id(), (PlayArea::Tableau, 3));
}

#[test]
fn new_card_lies_face_down_on_draw_pile() {
    let c = Card::new(12, Suit::Heart);
    assert_eq!(c.pcard, pc(12, Suit::Heart));
    assert_eq!(c.location, loc(PlayArea::DrawPile, 0, 0, false));
}

#[test]
fn fresh_deck_order() {
    let deck = Card::new_deck();
    assert_eq!(deck.len(), 52);
    assert_eq!(deck[0].pcard, pc(1, Suit::Spade));
    assert_eq!(deck[12].pcard, pc(13, Suit::Spade));
    assert_eq!(deck[13].pcard, pc(1, Suit::Diamond));
    assert_eq!(deck[26].pcard, pc(1, Suit::Club));
    assert_eq!(deck[51].pcard, pc(13, Suit::Heart));
    for i in 0..52 {
        for j in 0..i {
            assert_ne!(deck[i].pcard, deck[j].pcard);
        }
    }
}

#[test]
fn deal_gives_every_card_its_own_place() {
    let mut d = Dealer::new(7);
    d.shuffle();
    d.deal();
    assert_eq!(d.deck.len(), 52);
    for i in 0..52 {
        for j in 0..i {
            let a = d.deck[i].location;
            let b = d.deck[j].location;
            assert!(a.stack_id() != b.stack_id() || a.sort_index != b.sort_index);
        }
    }
}

#[test]
fn deal_layout_seven_columns() {
    let mut d = Dealer::new(7);
    d.deal();
    // Column 0 has one face-up card, column 1 two cards, the last face up.
    assert_eq!(d.deck[0].location, loc(PlayArea::Tableau, 0, 0, true));
    assert_eq!(d.deck[1].location, loc(PlayArea::Tableau, 1, 0, false));
    assert_eq!(d.deck[2].location, loc(PlayArea::Tableau, 1, 1, true));
    assert_eq!(d.deck[27].location, loc(PlayArea::Tableau, 6, 6, true));
    let tableau = d.deck.iter().filter(|c| c.location.area == PlayArea::Tableau).count();
    assert_eq!(tableau, 28);
    // The 24 cards left over lie face down on the draw pile, stacked in order.
    for i in 28..52 {
        assert_eq!(d.deck[i].location, loc(PlayArea::DrawPile, 0, i - 28, false));
    }
    // Dealing keeps the order of the faces.
    assert_eq!(d.deck[0].pcard, pc(1, Suit::Spade));
    assert_eq!(d.deck[51].pcard, pc(13, Suit::Heart));
}

#[test]
fn deal_with_nine_columns_uses_forty_five_cards() {
    let mut d = Dealer::new(9);
    d.deal();
    assert_eq!(d.deck[44].location, loc(PlayArea::Tableau, 8, 8, true));
    assert_eq!(d.deck[45].location, loc(PlayArea::DrawPile, 0, 0, false));
    assert_eq!(d.deck[51].location, loc(PlayArea::DrawPile, 0, 6, false));
}

#[test]
fn shuffle_keeps_the_cards() {
    let mut d = Dealer::new(7);
    d.shuffle();
    let mut faces: Vec<(i32, u8)> = d
        .deck
        .iter()
        .map(|c| (c.pcard.rank, c.pcard.suit as u8))
        .collect();
    faces.sort();
    let mut expected: Vec<(i32, u8)> = Card::new_deck()
        .iter()
        .map(|c| (c.pcard.rank, c.pcard.suit as u8))
        .collect();
    expected.sort();
    assert_eq!(faces, expected);
    assert_eq!(d.n_columns, 7);
}

#[test]
fn set_n_columns_changes_only_the_count() {
    let mut d = Dealer::new(7);
    d.set_n_columns(4);
    assert_eq!(d.n_columns, 4);
    assert_eq!(d.deck.len(), 52);
    assert_eq!(d.get_drop_zones().len(), 8);
}

#[test]
fn movable_tableau_face_up_only() {
    let d = Dealer {
        deck: vec![
            card_at(13, Suit::Spade, loc(PlayArea::Tableau, 0, 0, false)),
            card_at(12, Suit::Heart, loc(PlayArea::Tableau, 0, 1, true)),
        ],
        n_columns: 7,
    };
    let movable = d.get_movable();
    assert!(movable.contains(&pc(12, Suit::Heart)));
    assert!(!movable.contains(&pc(13, Suit::Spade)));
}

#[test]
fn movable_tops_of_waste_and_foundation() {
    let d = Dealer {
        deck: vec![
            card_at(3, Suit::Club, loc(PlayArea::WastePile, 0, 0, true)),
            card_at(9, Suit::Club, loc(PlayArea::WastePile, 0, 1, true)),
            card_at(1, Suit::Heart, loc(PlayArea::Foundation, 2, 0, true)),
            card_at(2, Suit::Heart, loc(PlayArea::Foundation, 2, 1, true)),
            card_at(5, Suit::Spade, loc(PlayArea::DrawPile, 0, 0, true)),
            card_at(7, Suit::Spade, loc(PlayArea::Tableau, 0, 3, true)),
            card_at(8, Suit::Spade, loc(PlayArea::Tableau, 0, 2, true)),
        ],
        n_columns: 7,
    };
    let mut movable = d.get_movable();
    movable.sort_by_key(|c| (c.rank, c.suit as u8));
    assert_eq!(movable, vec![pc(2, Suit::Heart), pc(7, Suit::Spade), pc(8, Suit::Spade), pc(9, Suit::Club)]);
}

#[test]
fn top_card_per_stack() {
    let d = Dealer {
        deck: vec![
            card_at(4, Suit::Club, loc(PlayArea::Tableau, 1, 0, false)),
            card_at(5, Suit::Club, loc(PlayArea::Tableau, 1, 2, true)),
            card_at(6, Suit::Club, loc(PlayArea::Tableau, 1, 1, false)),
            card_at(7, Suit::Club, loc(PlayArea::Tableau, 2, 0, true)),
            card_at(8, Suit::Club, loc(PlayArea::Foundation, 0, 0, true)),
        ],
        n_columns: 3,
    };
    let tops = d.get_top_card_per_stack(&[PlayArea::Tableau]);
    assert_eq!(tops.len(), 2);
    assert!(tops.iter().any(|p| p.pcard == pc(5, Suit::Club) && p.location.area_index == 1));
    assert!(tops.iter().any(|p| p.pcard == pc(7, Suit::Club) && p.location.area_index == 2));
    assert!(d.get_top_card_per_stack(&[PlayArea::WastePile]).is_empty());
}

#[test]
fn foundation_legality() {
    let z = zone(Some(pc(6, Suit::Diamond)), PlayArea::Foundation);
    assert!(Dealer::is_legal(&pc(7, Suit::Diamond), &z));
    assert!(!Dealer::is_legal(&pc(7, Suit::Club), &z));
    assert!(!Dealer::is_legal(&pc(5, Suit::Diamond), &z));
    assert!(!Dealer::is_legal(&pc(8, Suit::Diamond), &z));
    let m = Dealer::drop_ok(&pc(7, Suit::Diamond), &z).unwrap();
    assert_eq!(m, MoveData { pcard: pc(7, Suit::Diamond), to: z.location });
    assert!(Dealer::drop_ok(&pc(7, Suit::Club), &z).is_none());
}

#[test]
fn tableau_legality() {
    let red = zone(Some(pc(8, Suit::Heart)), PlayArea::Tableau);
    let black = zone(Some(pc(8, Suit::Club)), PlayArea::Tableau);
    assert!(Dealer::is_legal(&pc(7, Suit::Club), &red));
    assert!(Dealer::is_legal(&pc(7, Suit::Spade), &red));
    assert!(!Dealer::is_legal(&pc(7, Suit::Club), &black));
    assert!(!Dealer::is_legal(&pc(9, Suit::Spade), &red));
    assert!(!Dealer::is_legal(&pc(7, Suit::Diamond), &red));
}

#[test]
fn empty_piles_take_nothing() {
    assert!(!Dealer::is_legal(&pc(1, Suit::Spade), &zone(None, PlayArea::Foundation)));
    assert!(!Dealer::is_legal(&pc(13, Suit::Heart), &zone(None, PlayArea::Tableau)));
    assert!(Dealer::drop_ok(&pc(1, Suit::Spade), &zone(None, PlayArea::Foundation)).is_none());
}

#[test]
fn waste_and_draw_piles_take_nothing() {
    let z = zone(Some(pc(6, Suit::Diamond)), PlayArea::WastePile);
    assert!(!Dealer::is_legal(&pc(7, Suit::Diamond), &z));
    let z = zone(Some(pc(8, Suit::Heart)), PlayArea::DrawPile);
    assert!(!Dealer::is_legal(&pc(7, Suit::Club), &z));
}

#[test]
fn moves_follow_zone_order() {
    let zones = vec![
        zone(Some(pc(8, Suit::Heart)), PlayArea::Tableau),
        zone(Some(pc(8, Suit::Club)), PlayArea::Tableau),
        DropZone { card: Some(pc(8, Suit::Diamond)), location: loc(PlayArea::Tableau, 4, 2, true) },
    ];
    let moves = Dealer::get_moves(&pc(7, Suit::Spade), &zones);
    assert_eq!(moves.len(), 2);
    assert_eq!(moves[0].to, zones[0].location);
    assert_eq!(moves[1].to, loc(PlayArea::Tableau, 4, 2, true));
}

#[test]
fn drop_zones_cover_every_pile() {
    let mut d = Dealer::new(7);
    let zones = d.get_drop_zones();
    assert_eq!(zones.len(), 11);
    for (k, z) in zones.iter().enumerate() {
        assert!(z.card.is_none());
        assert_eq!(z.location.sort_index, 0);
        assert!(z.location.faceup);
        if k < 4 {
            assert_eq!(z.location.stack_id(), (PlayArea::Foundation, k));
        } else {
            assert_eq!(z.location.stack_id(), (PlayArea::Tableau, k - 4));
        }
    }
    d.deal();
    let zones = d.get_drop_zones();
    assert_eq!(zones.len(), 11);
    // Column 2 holds the fourth to sixth cards; the six of spades is on top.
    assert_eq!(zones[6].card, Some(pc(6, Suit::Spade)));
    assert_eq!(zones[6].location, loc(PlayArea::Tableau, 2, 3, true));
}

#[test]
fn drop_zone_above_foundation_top() {
    let d = Dealer {
        deck: vec![
            card_at(1, Suit::Heart, loc(PlayArea::Foundation, 3, 0, false)),
            card_at(2, Suit::Heart, loc(PlayArea::Foundation, 3, 1, false)),
            card_at(9, Suit::Heart, loc(PlayArea::Tableau, 5, 0, true)),
        ],
        n_columns: 2,
    };
    let zones = d.get_drop_zones();
    assert_eq!(zones.len(), 6);
    assert_eq!(zones[3].card, Some(pc(2, Suit::Heart)));
    assert_eq!(zones[3].location, loc(PlayArea::Foundation, 3, 2, true));
    // A card beyond the configured columns makes no zone.
    assert!(zones.iter().all(|z| z.location.area_index != 5 || z.location.area != PlayArea::Tableau));
}

#[test]
fn queries_repeat() {
    let mut d = Dealer::new(7);
    d.shuffle();
    d.deal();
    assert_eq!(d.get_drop_zones(), d.get_drop_zones());
    let mut a = d.get_movable();
    let mut b = d.get_movable();
    a.sort_by_key(|c| (c.rank, c.suit as u8));
    b.sort_by_key(|c| (c.rank, c.suit as u8));
    assert_eq!(a, b);
}

#[test]
fn best_move_finds_the_legal_one() {
    let d = Dealer {
        deck: vec![
            card_at(6, Suit::Diamond, loc(PlayArea::Foundation, 1, 0, true)),
            card_at(7, Suit::Diamond, loc(PlayArea::WastePile, 0, 0, true)),
        ],
        n_columns: 2,
    };
    let m = d.get_best_move().unwrap();
    assert_eq!(m.pcard, pc(7, Suit::Diamond));
    assert_eq!(m.to, loc(PlayArea::Foundation, 1, 1, true));
}

#[test]
fn auto_move_moves_one_card() {
    let mut d = Dealer {
        deck: vec![
            card_at(8, Suit::Heart, loc(PlayArea::Tableau, 0, 0, true)),
            card_at(7, Suit::Club, loc(PlayArea::Tableau, 1, 0, true)),
        ],
        n_columns: 2,
    };
    assert!(d.auto_move());
    assert_eq!(d.deck[0].location, loc(PlayArea::Tableau, 0, 0, true));
    assert_eq!(d.deck[1].location, loc(PlayArea::Tableau, 0, 1, true));
    assert_eq!(d.deck[1].pcard, pc(7, Suit::Club));
    // Nothing more can move.
    assert!(!d.auto_move());
}

#[test]
fn auto_move_without_moves_changes_nothing() {
    let mut d = Dealer::new(7);
    let before = d.deck.clone();
    assert!(d.get_best_move().is_none());
    assert!(!d.auto_move());
    assert_eq!(d.deck, before);
    assert_eq!(d.n_columns, 7);

    let mut e = Dealer {
        deck: vec![
            card_at(1, Suit::Spade, loc(PlayArea::WastePile, 0, 0, true)),
            card_at(7, Suit::Club, loc(PlayArea::Tableau, 0, 0, true)),
            card_at(8, Suit::Club, loc(PlayArea::Tableau, 1, 0, true)),
        ],
        n_columns: 2,
    };
    let before = e.deck.clone();
    assert!(!e.auto_move());
    assert_eq!(e.deck, before);
}

#[test]
fn apply_move_reports_missing_card() {
    let mut d = Dealer::new(7);
    let before = d.deck.clone();
    let m = MoveData { pcard: pc(14, Suit::Club), to: loc(PlayArea::Tableau, 0, 0, true) };
    assert_eq!(d.apply_move(&m), Err(CardNotFound {}));
    assert_eq!(d.deck, before);
    let m = MoveData { pcard: pc(2, Suit::Spade), to: loc(PlayArea::Foundation, 0, 0, true) };
    assert_eq!(d.apply_move(&m), Ok(()));
    assert_eq!(d.deck[1].location, loc(PlayArea::Foundation, 0, 0, true));
}

#[test]
fn update_positions_turns_tableau_tops_up() {
    let mut d = Dealer {
        deck: vec![
            card_at(13, Suit::Spade, loc(PlayArea::Tableau, 0, 0, false)),
            card_at(12, Suit::Heart, loc(PlayArea::Tableau, 0, 1, false)),
            card_at(3, Suit::Heart, loc(PlayArea::DrawPile, 0, 0, false)),
            card_at(4, Suit::Heart, loc(PlayArea::Tableau, 2, 0, false)),
        ],
        n_columns: 3,
    };
    d.update_positions();
    assert!(!d.deck[0].location.faceup);
    assert!(d.deck[1].location.faceup);
    assert!(!d.deck[2].location.faceup);
    assert!(d.deck[3].location.faceup);
    let after = d.deck.clone();
    d.update_positions();
    assert_eq!(d.deck, after);
}

#[test]
fn play_until_stuck() {
    let mut d = Dealer::new(7);
    d.shuffle();
    d.deal();
    d.update_positions();
    let mut moves = 0;
    while moves < 1000 && d.auto_move() {
        d.update_positions();
        moves += 1;
    }
    assert_eq!(d.deck.len(), 52);
}

#[test]
fn movable_cards_listed_once() {
    let mut d = Dealer::new(7);
    d.shuffle();
    d.deal();
    d.deck[40].location = loc(PlayArea::WastePile, 0, 0, true);
    d.deck[41].location = loc(PlayArea::WastePile, 0, 1, true);
    d.deck[42].location = loc(PlayArea::Foundation, 1, 0, true);
    let movable = d.get_movable();
    // Seven face-up column tops, one waste top and one foundation top.
    assert_eq!(movable.len(), 9);
    for i in 0..movable.len() {
        for j in 0..i {
            assert_ne!(movable[i], movable[j]);
        }
    }
    assert!(movable.contains(&d.deck[41].pcard));
    assert!(!movable.contains(&d.deck[40].pcard));
}
