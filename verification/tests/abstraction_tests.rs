use pokers::abstraction::{calculate_range_idx_cards, canonical_suit_map, evaluate_2cards};
use pokers::card::Card;
use pokers::stage::Stage;
use pokers::state::State;

fn c(rank: u8, suit: u8) -> Card {
    Card { rank, suit }
}

#[test]
fn preflop_classes_pin_the_known_ordinals() {
    // A pair of aces is the best class, seven-deuce offsuit the worst.
    assert_eq!(evaluate_2cards(c(12, 0), c(12, 1)), 1);
    assert_eq!(evaluate_2cards(c(5, 0), c(0, 1)), 169);
    // Ace-king suited is class 4, offsuit class 11.
    assert_eq!(evaluate_2cards(c(12, 0), c(11, 0)), 4);
    assert_eq!(evaluate_2cards(c(12, 0), c(11, 1)), 11);
    // The order of the two cards does not matter.
    assert_eq!(evaluate_2cards(c(11, 0), c(12, 0)), 4);
}

#[test]
fn preflop_bucket_ignores_the_concrete_suits() {
    // Ace-king suited in spades and in hearts share one class.
    let spades = evaluate_2cards(c(12, 0), c(11, 0));
    let hearts = evaluate_2cards(c(12, 3), c(11, 3));
    assert_eq!(spades, hearts);

    let board: Vec<Card> = Vec::new();
    let a = calculate_range_idx_cards(Stage::Preflop, &board, (c(12, 0), c(11, 0)));
    let b = calculate_range_idx_cards(Stage::Preflop, &board, (c(12, 3), c(11, 3)));
    assert_eq!(a, b);
    assert_eq!(a, 3);
}

#[test]
fn the_canonical_map_ranks_suits_by_board_presence() {
    // Two spades, one diamond on the board: spades canonical 0,
    // diamonds 1, and the absent suits keep their relative order.
    let board = vec![c(4, 0), c(9, 0), c(2, 1)];
    let m = canonical_suit_map(&board);
    assert_eq!(m, vec![0, 1, 2, 3]);

    // The same pattern in other suits relabels accordingly.
    let board2 = vec![c(4, 3), c(9, 3), c(2, 2)];
    let m2 = canonical_suit_map(&board2);
    assert_eq!(m2, vec![2, 3, 1, 0]);
}

#[test]
fn postflop_bucket_is_invariant_under_suit_relabeling() {
    // Swap spades and hearts globally; every suit shows a distinct
    // pattern on this board, so the bucket must not move.
    let board1 = vec![c(4, 0), c(9, 0), c(2, 1), c(6, 2)];
    let hand1 = (c(12, 0), c(7, 3));
    let board2 = vec![c(4, 3), c(9, 3), c(2, 1), c(6, 2)];
    let hand2 = (c(12, 3), c(7, 0));
    let i1 = calculate_range_idx_cards(Stage::Turn, &board1, hand1);
    let i2 = calculate_range_idx_cards(Stage::Turn, &board2, hand2);
    assert_eq!(i1, i2);
    assert!(0 <= i1 && i1 <= 1325);
}

#[test]
fn postflop_bucket_follows_the_triangular_formula() {
    let board = vec![c(4, 0), c(9, 0), c(2, 1)];
    // Hole: As (canonical suit 0) and 9d (canonical suit 1):
    // indices 12*4+0 = 48 and 7*4+1 = 29; 48*47/2 + 29 = 1157.
    let idx = calculate_range_idx_cards(Stage::Flop, &board, (c(12, 0), c(7, 1)));
    assert_eq!(idx, 1157);
}

#[test]
fn buckets_are_recomputed_when_the_board_grows() {
    let mut deck = Vec::new();
    for rank in 0..6u8 {
        for suit in 0..4u8 {
            deck.push(c(rank, suit));
        }
    }
    let s = State::from_deck(3, 0, 5, 10, 1000, deck).unwrap();
    for (i, p) in s.players_state.iter().enumerate() {
        assert_eq!(p.range_idx, s.calculate_range_idx(i));
        assert!(0 <= p.range_idx && p.range_idx <= 168);
    }
    assert_eq!(s.calculate_range_idx(99), -1);
}
