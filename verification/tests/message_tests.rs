use pokers::card::Card;
use pokers::messages::{CardInfo, RegisterPlayerMessage, TakeSeatMessage};

#[test]
fn cards_round_trip_through_the_wire_shape() {
    for rank in 0..13u8 {
        for suit in 0..4u8 {
            let card = Card { rank, suit };
            let info = CardInfo::from_card(card);
            assert_eq!(info.rank, rank + 2);
            assert_eq!(info.suit, suit);
            assert_eq!(info.to_card(), Some(card));
        }
    }
}

#[test]
fn out_of_range_wire_cards_are_rejected()  {
    assert_eq!(CardInfo { rank: 1, suit: 0 }.to_card(), None);
    assert_eq!(CardInfo { rank: 15, suit: 0 }.to_card(), None);
    assert_eq!(CardInfo { rank: 10, suit: 4 }.to_card(), None);
}

#[test]
fn table_messages_carry_plain_values() {
    let reg = RegisterPlayerMessage { name: String::from("alice") };
    assert_eq!(reg.name, "alice");
    let seat = TakeSeatMessage { seat: 3 };
    assert_eq!(seat.seat, 3);
}
