//! Card identity and the deck.
//!
//! A card is a `(rank, suit)` pair.  Ranks run from 0 (the deuce) to 12
//! (the ace); suits are 0 to 3.  A deck is an ordered sequence of cards
//! consumed strictly from the front and never replenished within a hand.

use vstd::prelude::*;

use rand::seq::SliceRandom;
use rand::SeedableRng;

verus! {

/// A playing card.  `rank` 0 stands for the deuce, 12 for the ace;
/// `suit` is one of four values 0..=3.
#[derive(Clone, Copy, PartialEq, Eq, Structural, Hash, Debug)]
pub struct Card {
    pub rank: u8,
    pub suit: u8,
}

impl Card {
    /// A card is well formed when its rank and suit are in range.
    pub open spec fn wf(self) -> bool {
        self.rank <= 12 && self.suit <= 3
    }

    /// The full 52-card deck in rank-major order: the four deuces first,
    /// the four aces last.
    pub fn collect() -> (deck: Vec<Card>)
        ensures
            deck@.len() == 52,
            forall|i: int|
                0 <= i < 52 ==> #[trigger] deck@[i] == (Card {
                    rank: (i / 4) as u8,
                    suit: (i % 4) as u8,
                }),
            deck@ == full_deck(),
            all_cards_wf(deck@),
    {
        let mut deck: Vec<Card> = Vec::new();
        let mut r: u8 = 0;
        while r < 13
            invariant
                r <= 13,
                deck@.len() == 4 * r,
                forall|i: int|
                    0 <= i < deck@.len() ==> #[trigger] deck@[i] == (Card {
                        rank: (i / 4) as u8,
                        suit: (i % 4) as u8,
                    }),
            decreases 13 - r,
        {
            let mut s: u8 = 0;
            while s < 4
                invariant
                    s <= 4,
                    r < 13,
                    deck@.len() == 4 * r + s,
                    forall|i: int|
                        0 <= i < deck@.len() ==> #[trigger] deck@[i] == (Card {
                            rank: (i / 4) as u8,
                            suit: (i % 4) as u8,
                        }),
                decreases 4 - s,
            {
                deck.push(Card { rank: r, suit: s });
                s = s + 1;
            }
            r = r + 1;
        }
        assert forall|i: int| 0 <= i < 52 implies #[trigger] deck@[i].wf() by {
            assert(deck@[i].rank == i / 4 && i / 4 <= 12);
        }
        assert(deck@ =~= full_deck());
        deck
    }
}

/// Every card of the sequence is well formed.
pub open spec fn all_cards_wf(cs: Seq<Card>) -> bool {
    forall|i: int| 0 <= i < cs.len() ==> (#[trigger] cs[i]).wf()
}

/// The full 52-card deck in rank-major order, as a specification
/// value.
pub open spec fn full_deck() -> Seq<Card> {
    Seq::new(52, |i: int| Card { rank: (i / 4) as u8, suit: (i % 4) as u8 })
}

/// No two positions of the full deck hold the same card.
pub proof fn lemma_full_deck_distinct()
    ensures
        full_deck().no_duplicates(),
{
    assert forall|i: int, j: int|
        0 <= i < 52 && 0 <= j < 52 && i != j implies full_deck()[i] != full_deck()[j] by {
        vstd::arithmetic::div_mod::lemma_fundamental_div_mod(i, 4);
        vstd::arithmetic::div_mod::lemma_fundamental_div_mod(j, 4);
    }
}

/// The order rand's seeded shuffle leaves a deck in.  Naming it is
/// sound because the result is a function of the deck and the seed
/// alone: `StdRng::seed_from_u64` derives the generator entirely from
/// the seed, and the Fisher-Yates loop draws its indices through a
/// bound-dependent path that rand keeps identical on 32- and 64-bit
/// machines.  Shuffles are therefore exactly replayable from the seed.
pub uninterp spec fn shuffle_of(deck: Seq<Card>, seed: u64) -> Seq<Card>;

/// Relies on rand 0.8: `SliceRandom::shuffle` driven by a `StdRng`
/// seeded from `seed` reorders the slice in place -- the shuffled deck
/// holds exactly the cards of the old one, in the order the seed
/// determines.
#[verifier::external_body]
pub fn shuffle_cards(deck: &mut Vec<Card>, seed: u64)
    ensures
        final(deck)@ == shuffle_of(old(deck)@, seed),
        final(deck)@.to_multiset() == old(deck)@.to_multiset(),
{
    let mut rng = rand::rngs::StdRng::seed_from_u64(seed);
    deck.shuffle(&mut rng);
}

/// A shuffled deck keeps the length and the well-formedness of its cards.
pub proof fn lemma_permutation_keeps_wf(a: Seq<Card>, b: Seq<Card>)
    requires
        a.to_multiset() == b.to_multiset(),
        all_cards_wf(a),
    ensures
        b.len() == a.len(),
        all_cards_wf(b),
{
    broadcast use vstd::seq_lib::group_to_multiset_ensures;

    assert(a.len() == a.to_multiset().len());
    assert(b.len() == b.to_multiset().len());
    assert forall|i: int| 0 <= i < b.len() implies (#[trigger] b[i]).wf() by {
        assert(b.to_multiset().count(b[i]) > 0);
        assert(a.contains(b[i]));
        let j = choose|j: int| 0 <= j < a.len() && a[j] == b[i];
        assert(a[j].wf());
    }
}

} // verus!
