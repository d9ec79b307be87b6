//! Plain data carried across the table-server boundary.
//!
//! These are the engine-side shapes of the messages a transport layer
//! exchanges with clients; the transport owns serialization and adds
//! it on its own copies of these types.

use vstd::prelude::*;

use crate::card::Card;

verus! {

/// A client asks to be registered under a display name.
#[derive(Clone, Debug)]
pub struct RegisterPlayerMessage {
    pub name: String,
}

/// A client asks for a seat at the table (seats are numbered from 1).
#[derive(Clone, Copy, PartialEq, Eq, Structural, Debug)]
pub struct TakeSeatMessage {
    pub seat: u8,
}

/// A card as shown to clients: the rank on the wire runs from 2 to 14
/// (ace high) while the engine stores ranks 0 to 12.
#[derive(Clone, Copy, PartialEq, Eq, Structural, Debug)]
pub struct CardInfo {
    pub suit: u8,
    pub rank: u8,
}

impl CardInfo {
    /// The wire shape of an engine card: the rank is shifted up by two.
    pub fn from_card(c: Card) -> (r: CardInfo)
        requires
            c.wf(),
        ensures
            r.suit == c.suit,
            r.rank == c.rank + 2,
    {
        CardInfo { suit: c.suit, rank: c.rank + 2 }
    }

    /// The engine card a wire card stands for, or `None` when the rank
    /// or suit is out of range.
    pub fn to_card(self) -> (r: Option<Card>)
        ensures
            match r {
                Some(c) => c.wf() && c.suit == self.suit && c.rank + 2 == self.rank,
                None => self.rank < 2 || self.rank > 14 || self.suit > 3,
            },
    {
        if 2 <= self.rank && self.rank <= 14 && self.suit <= 3 {
            Some(Card { rank: self.rank - 2, suit: self.suit })
        } else {
            None
        }
    }
}

} // verus!
