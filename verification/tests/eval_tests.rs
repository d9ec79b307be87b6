use pokers::card::Card;
use pokers::eval::{rank_card_combination, rank_hand, HandKey};

fn c(rank: u8, suit: u8) -> Card {
    Card { rank, suit }
}

fn score(cards: [Card; 5]) -> HandKey {
    let v: Vec<Card> = cards.to_vec();
    rank_card_combination(&v)
}

fn strictly_better(a: &HandKey, b: &HandKey) -> bool {
    a.le_exec(b) && !b.le_exec(a)
}

#[test]
fn category_precedence_is_total() {
    // Ranks: 0 = deuce .. 12 = ace.
    let royal = score([c(8, 0), c(9, 0), c(10, 0), c(11, 0), c(12, 0)]);
    let straight_flush = score([c(3, 1), c(4, 1), c(5, 1), c(6, 1), c(7, 1)]);
    let quads = score([c(7, 0), c(7, 1), c(7, 2), c(7, 3), c(12, 0)]);
    let full_house = score([c(6, 0), c(6, 1), c(6, 2), c(2, 0), c(2, 1)]);
    let flush = score([c(0, 2), c(3, 2), c(5, 2), c(8, 2), c(11, 2)]);
    let straight = score([c(4, 0), c(5, 1), c(6, 2), c(7, 3), c(8, 0)]);
    let trips = score([c(9, 0), c(9, 1), c(9, 2), c(2, 0), c(5, 1)]);
    let two_pair = score([c(10, 0), c(10, 1), c(3, 2), c(3, 3), c(7, 0)]);
    let pair = score([c(11, 0), c(11, 1), c(2, 2), c(5, 3), c(8, 0)]);
    let high_card = score([c(0, 0), c(3, 1), c(5, 2), c(8, 3), c(12, 0)]);

    let ladder = [
        royal,
        straight_flush,
        quads,
        full_house,
        flush,
        straight,
        trips,
        two_pair,
        pair,
        high_card,
    ];
    for (i, key) in ladder.iter().enumerate() {
        assert_eq!(key.category, (i + 1) as u64);
    }
    for i in 0..ladder.len() {
        for j in (i + 1)..ladder.len() {
            assert!(strictly_better(&ladder[i], &ladder[j]));
        }
    }
}

#[test]
fn wheel_is_the_lowest_straight() {
    let wheel = score([c(12, 0), c(0, 1), c(1, 2), c(2, 3), c(3, 0)]);
    let six_high = score([c(0, 0), c(1, 1), c(2, 2), c(3, 3), c(4, 0)]);
    let ace_high = score([c(8, 0), c(9, 1), c(10, 2), c(11, 3), c(12, 0)]);
    assert_eq!(wheel.category, 6);
    assert_eq!(six_high.category, 6);
    assert_eq!(ace_high.category, 6);
    assert!(strictly_better(&six_high, &wheel));
    assert!(strictly_better(&ace_high, &six_high));

    // The same ordering holds for straight flushes.
    let steel_wheel = score([c(12, 1), c(0, 1), c(1, 1), c(2, 1), c(3, 1)]);
    let six_high_sf = score([c(0, 2), c(1, 2), c(2, 2), c(3, 2), c(4, 2)]);
    assert_eq!(steel_wheel.category, 2);
    assert_eq!(six_high_sf.category, 2);
    assert!(strictly_better(&six_high_sf, &steel_wheel));
}

#[test]
fn quads_outrank_the_field_on_a_paired_board() {
    // Board 9s 9d 2c 4h 7s; ranks 9 -> 7, 2 -> 0, 4 -> 2, 7 -> 5.
    let board = vec![c(7, 0), c(7, 1), c(0, 2), c(2, 3), c(5, 0)];
    let hero = rank_hand((c(7, 3), c(7, 2)), &board);
    let villain = rank_hand((c(12, 0), c(11, 0)), &board);
    assert_eq!(hero.category, 3);
    assert_eq!(villain.category, 9);
    assert!(strictly_better(&hero, &villain));
}

#[test]
fn best_five_of_seven_uses_the_hole_cards_only_when_they_help() {
    // The board itself holds a straight; a deuce-pair holding cannot
    // beat playing the board.
    let board = vec![c(4, 0), c(5, 1), c(6, 2), c(7, 3), c(8, 0)];
    let key = rank_hand((c(0, 1), c(0, 2)), &board);
    assert_eq!(key.category, 6);
    assert_eq!(key.primary, 12 - 8);
}

#[test]
fn tiebreaks_compare_kickers_positionally() {
    let nines_ace = score([c(7, 0), c(7, 1), c(7, 2), c(7, 3), c(12, 0)]);
    let nines_king = score([c(7, 0), c(7, 1), c(7, 2), c(7, 3), c(11, 0)]);
    assert_eq!(nines_ace.category, 3);
    assert_eq!(nines_ace.primary, nines_king.primary);
    assert!(strictly_better(&nines_ace, &nines_king));
}

#[test]
fn short_board_degrades_to_the_no_hand_key() {
    let board: Vec<Card> = vec![c(4, 0), c(5, 1)];
    let key = rank_hand((c(0, 1), c(0, 2)), &board);
    assert_eq!(key.category, 10);
    assert_eq!(key.primary, 0);
    assert_eq!(key.secondary, 0);
}
