use pokers::card::Card;

#[test]
fn the_full_deck_holds_every_card_once() {
    let deck = Card::collect();
    assert_eq!(deck.len(), 52);
    for rank in 0..13u8 {
        for suit in 0..4u8 {
            assert_eq!(
                deck.iter().filter(|c| c.rank == rank && c.suit == suit).count(),
                1
            );
        }
    }
}
