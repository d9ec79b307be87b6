//! Hand-abstraction indexer.
//!
//! Preflop, a player's two hole cards fall into one of 169 canonical
//! starting-hand classes keyed by `(high rank, low rank, suited)`, each
//! class carrying a fixed equity-strength ordinal (1 is a pair of aces,
//! 169 the weakest holdings).  Postflop, the four suits are relabeled
//! canonically from the board alone -- ranked by board-card count, then
//! by the board-rank bitmask, then by original suit id -- and the two
//! relabeled cards combine through a triangular formula into one of the
//! 1,326 two-card combination identifiers, so that isomorphic suit
//! patterns share a bucket.

use vstd::prelude::*;

use crate::card::Card;
use crate::stage::Stage;

verus! {

/// The fixed equity-strength ordinal of the starting-hand class
/// `(hi, lo, suited)`, for `0 <= lo <= hi <= 12`; 1 is best (a pair of
/// aces), 169 worst.  The table orders 166 classes; the three suited
/// holdings it leaves unordered -- ace-six, ace-four and ace-three
/// suited -- share the final ordinal 169 with the weakest offsuit
/// class, an inherited gap of the fixed table itself.
pub open spec fn preflop_rank(hi: int, lo: int, suited: bool) -> int {
    if hi == 12 {
        if lo == 12 { 1 }
        else if lo == 11 { if suited { 4 } else { 11 } }
        else if lo == 10 { if suited { 6 } else { 18 } }
        else if lo == 9 { if suited { 8 } else { 27 } }
        else if lo == 8 { if suited { 12 } else { 42 } }
        else if lo == 7 { if suited { 19 } else { 76 } }
        else if lo == 6 { if suited { 24 } else { 91 } }
        else if lo == 5 { if suited { 30 } else { 102 } }
        else if lo == 4 { if suited { 169 } else { 113 } }
        else if lo == 3 { if suited { 28 } else { 101 } }
        else if lo == 2 { if suited { 169 } else { 104 } }
        else if lo == 1 { if suited { 169 } else { 109 } }
        else if lo == 0 { if suited { 39 } else { 117 } }
        else { 169 }
    }
    else if hi == 11 {
        if lo == 11 { 2 }
        else if lo == 10 { if suited { 7 } else { 20 } }
        else if lo == 9 { if suited { 9 } else { 31 } }
        else if lo == 8 { if suited { 14 } else { 45 } }
        else if lo == 7 { if suited { 22 } else { 81 } }
        else if lo == 6 { if suited { 37 } else { 112 } }
        else if lo == 5 { if suited { 44 } else { 122 } }
        else if lo == 4 { if suited { 53 } else { 125 } }
        else if lo == 3 { if suited { 55 } else { 128 } }
        else if lo == 2 { if suited { 58 } else { 132 } }
        else if lo == 1 { if suited { 59 } else { 133 } }
        else if lo == 0 { if suited { 60 } else { 135 } }
        else { 169 }
    }
    else if hi == 10 {
        if lo == 10 { 3 }
        else if lo == 9 { if suited { 13 } else { 35 } }
        else if lo == 8 { if suited { 15 } else { 49 } }
        else if lo == 7 { if suited { 25 } else { 83 } }
        else if lo == 6 { if suited { 43 } else { 115 } }
        else if lo == 5 { if suited { 61 } else { 131 } }
        else if lo == 4 { if suited { 66 } else { 137 } }
        else if lo == 3 { if suited { 69 } else { 141 } }
        else if lo == 2 { if suited { 71 } else { 143 } }
        else if lo == 1 { if suited { 72 } else { 144 } }
        else if lo == 0 { if suited { 75 } else { 146 } }
        else { 169 }
    }
    else if hi == 9 {
        if lo == 9 { 5 }
        else if lo == 8 { if suited { 16 } else { 47 } }
        else if lo == 7 { if suited { 26 } else { 80 } }
        else if lo == 6 { if suited { 41 } else { 108 } }
        else if lo == 5 { if suited { 64 } else { 129 } }
        else if lo == 4 { if suited { 79 } else { 147 } }
        else if lo == 3 { if suited { 82 } else { 149 } }
        else if lo == 2 { if suited { 86 } else { 152 } }
        else if lo == 1 { if suited { 87 } else { 153 } }
        else if lo == 0 { if suited { 89 } else { 155 } }
        else { 169 }
    }
    else if hi == 8 {
        if lo == 8 { 10 }
        else if lo == 7 { if suited { 23 } else { 73 } }
        else if lo == 6 { if suited { 38 } else { 100 } }
        else if lo == 5 { if suited { 57 } else { 124 } }
        else if lo == 4 { if suited { 74 } else { 140 } }
        else if lo == 3 { if suited { 93 } else { 157 } }
        else if lo == 2 { if suited { 95 } else { 158 } }
        else if lo == 1 { if suited { 96 } else { 160 } }
        else if lo == 0 { if suited { 98 } else { 162 } }
        else { 169 }
    }
    else if hi == 7 {
        if lo == 7 { 17 }
        else if lo == 6 { if suited { 40 } else { 99 } }
        else if lo == 5 { if suited { 54 } else { 119 } }
        else if lo == 4 { if suited { 68 } else { 134 } }
        else if lo == 3 { if suited { 88 } else { 150 } }
        else if lo == 2 { if suited { 106 } else { 164 } }
        else if lo == 1 { if suited { 107 } else { 165 } }
        else if lo == 0 { if suited { 111 } else { 166 } }
        else { 169 }
    }
    else if hi == 6 {
        if lo == 6 { 21 }
        else if lo == 5 { if suited { 48 } else { 114 } }
        else if lo == 4 { if suited { 62 } else { 126 } }
        else if lo == 3 { if suited { 78 } else { 139 } }
        else if lo == 2 { if suited { 94 } else { 156 } }
        else if lo == 1 { if suited { 116 } else { 167 } }
        else if lo == 0 { if suited { 118 } else { 168 } }
        else { 169 }
    }
    else if hi == 5 {
        if lo == 5 { 29 }
        else if lo == 4 { if suited { 56 } else { 121 } }
        else if lo == 3 { if suited { 67 } else { 130 } }
        else if lo == 2 { if suited { 85 } else { 145 } }
        else if lo == 1 { if suited { 103 } else { 161 } }
        else if lo == 0 { if suited { 120 } else { 169 } }
        else { 169 }
    }
    else if hi == 4 {
        if lo == 4 { 36 }
        else if lo == 3 { if suited { 63 } else { 123 } }
        else if lo == 2 { if suited { 70 } else { 136 } }
        else if lo == 1 { if suited { 90 } else { 148 } }
        else if lo == 0 { if suited { 110 } else { 163 } }
        else { 169 }
    }
    else if hi == 3 {
        if lo == 3 { 46 }
        else if lo == 2 { if suited { 65 } else { 127 } }
        else if lo == 1 { if suited { 77 } else { 138 } }
        else if lo == 0 { if suited { 92 } else { 151 } }
        else { 169 }
    }
    else if hi == 2 {
        if lo == 2 { 50 }
        else if lo == 1 { if suited { 84 } else { 142 } }
        else if lo == 0 { if suited { 97 } else { 154 } }
        else { 169 }
    }
    else if hi == 1 {
        if lo == 1 { 52 }
        else if lo == 0 { if suited { 105 } else { 159 } }
        else { 169 }
    }
    else if hi == 0 {
        if lo == 0 { 51 }
        else { 169 }
    }
    else { 169 }
}

/// The preflop class of a concrete hole pair: ranks ordered, suitedness
/// read off the two suits.
pub open spec fn preflop_class(c1: Card, c2: Card) -> int {
    let hi = if c1.rank >= c2.rank { c1.rank as int } else { c2.rank as int };
    let lo = if c1.rank >= c2.rank { c2.rank as int } else { c1.rank as int };
    preflop_rank(hi, lo, c1.suit == c2.suit)
}

/// Rank two hole cards into their preflop class ordinal.
pub fn evaluate_2cards(card1: Card, card2: Card) -> (r: i64)
    requires
        card1.wf(),
        card2.wf(),
    ensures
        r == preflop_class(card1, card2),
        1 <= r <= 169,
{
    let hi: u8 = if card1.rank >= card2.rank { card1.rank } else { card2.rank };
    let lo: u8 = if card1.rank >= card2.rank { card2.rank } else { card1.rank };
    let suited = card1.suit == card2.suit;
    if hi == 12 {
        if lo == 12 { 1 }
        else if lo == 11 { if suited { 4 } else { 11 } }
        else if lo == 10 { if suited { 6 } else { 18 } }
        else if lo == 9 { if suited { 8 } else { 27 } }
        else if lo == 8 { if suited { 12 } else { 42 } }
        else if lo == 7 { if suited { 19 } else { 76 } }
        else if lo == 6 { if suited { 24 } else { 91 } }
        else if lo == 5 { if suited { 30 } else { 102 } }
        else if lo == 4 { if suited { 169 } else { 113 } }
        else if lo == 3 { if suited { 28 } else { 101 } }
        else if lo == 2 { if suited { 169 } else { 104 } }
        else if lo == 1 { if suited { 169 } else { 109 } }
        else if lo == 0 { if suited { 39 } else { 117 } }
        else { 169 }
    }
    else if hi == 11 {
        if lo == 11 { 2 }
        else if lo == 10 { if suited { 7 } else { 20 } }
        else if lo == 9 { if suited { 9 } else { 31 } }
        else if lo == 8 { if suited { 14 } else { 45 } }
        else if lo == 7 { if suited { 22 } else { 81 } }
        else if lo == 6 { if suited { 37 } else { 112 } }
        else if lo == 5 { if suited { 44 } else { 122 } }
        else if lo == 4 { if suited { 53 } else { 125 } }
        else if lo == 3 { if suited { 55 } else { 128 } }
        else if lo == 2 { if suited { 58 } else { 132 } }
        else if lo == 1 { if suited { 59 } else { 133 } }
        else if lo == 0 { if suited { 60 } else { 135 } }
        else { 169 }
    }
    else if hi == 10 {
        if lo == 10 { 3 }
        else if lo == 9 { if suited { 13 } else { 35 } }
        else if lo == 8 { if suited { 15 } else { 49 } }
        else if lo == 7 { if suited { 25 } else { 83 } }
        else if lo == 6 { if suited { 43 } else { 115 } }
        else if lo == 5 { if suited { 61 } else { 131 } }
        else if lo == 4 { if suited { 66 } else { 137 } }
        else if lo == 3 { if suited { 69 } else { 141 } }
        else if lo == 2 { if suited { 71 } else { 143 } }
        else if lo == 1 { if suited { 72 } else { 144 } }
        else if lo == 0 { if suited { 75 } else { 146 } }
        else { 169 }
    }
    else if hi == 9 {
        if lo == 9 { 5 }
        else if lo == 8 { if suited { 16 } else { 47 } }
        else if lo == 7 { if suited { 26 } else { 80 } }
        else if lo == 6 { if suited { 41 } else { 108 } }
        else if lo == 5 { if suited { 64 } else { 129 } }
        else if lo == 4 { if suited { 79 } else { 147 } }
        else if lo == 3 { if suited { 82 } else { 149 } }
        else if lo == 2 { if suited { 86 } else { 152 } }
        else if lo == 1 { if suited { 87 } else { 153 } }
        else if lo == 0 { if suited { 89 } else { 155 } }
        else { 169 }
    }
    else if hi == 8 {
        if lo == 8 { 10 }
        else if lo == 7 { if suited { 23 } else { 73 } }
        else if lo == 6 { if suited { 38 } else { 100 } }
        else if lo == 5 { if suited { 57 } else { 124 } }
        else if lo == 4 { if suited { 74 } else { 140 } }
        else if lo == 3 { if suited { 93 } else { 157 } }
        else if lo == 2 { if suited { 95 } else { 158 } }
        else if lo == 1 { if suited { 96 } else { 160 } }
        else if lo == 0 { if suited { 98 } else { 162 } }
        else { 169 }
    }
    else if hi == 7 {
        if lo == 7 { 17 }
        else if lo == 6 { if suited { 40 } else { 99 } }
        else if lo == 5 { if suited { 54 } else { 119 } }
        else if lo == 4 { if suited { 68 } else { 134 } }
        else if lo == 3 { if suited { 88 } else { 150 } }
        else if lo == 2 { if suited { 106 } else { 164 } }
        else if lo == 1 { if suited { 107 } else { 165 } }
        else if lo == 0 { if suited { 111 } else { 166 } }
        else { 169 }
    }
    else if hi == 6 {
        if lo == 6 { 21 }
        else if lo == 5 { if suited { 48 } else { 114 } }
        else if lo == 4 { if suited { 62 } else { 126 } }
        else if lo == 3 { if suited { 78 } else { 139 } }
        else if lo == 2 { if suited { 94 } else { 156 } }
        else if lo == 1 { if suited { 116 } else { 167 } }
        else if lo == 0 { if suited { 118 } else { 168 } }
        else { 169 }
    }
    else if hi == 5 {
        if lo == 5 { 29 }
        else if lo == 4 { if suited { 56 } else { 121 } }
        else if lo == 3 { if suited { 67 } else { 130 } }
        else if lo == 2 { if suited { 85 } else { 145 } }
        else if lo == 1 { if suited { 103 } else { 161 } }
        else if lo == 0 { if suited { 120 } else { 169 } }
        else { 169 }
    }
    else if hi == 4 {
        if lo == 4 { 36 }
        else if lo == 3 { if suited { 63 } else { 123 } }
        else if lo == 2 { if suited { 70 } else { 136 } }
        else if lo == 1 { if suited { 90 } else { 148 } }
        else if lo == 0 { if suited { 110 } else { 163 } }
        else { 169 }
    }
    else if hi == 3 {
        if lo == 3 { 46 }
        else if lo == 2 { if suited { 65 } else { 127 } }
        else if lo == 1 { if suited { 77 } else { 138 } }
        else if lo == 0 { if suited { 92 } else { 151 } }
        else { 169 }
    }
    else if hi == 2 {
        if lo == 2 { 50 }
        else if lo == 1 { if suited { 84 } else { 142 } }
        else if lo == 0 { if suited { 97 } else { 154 } }
        else { 169 }
    }
    else if hi == 1 {
        if lo == 1 { 52 }
        else if lo == 0 { if suited { 105 } else { 159 } }
        else { 169 }
    }
    else if hi == 0 {
        if lo == 0 { 51 }
        else { 169 }
    }
    else { 169 }
}

// ------------------------------------------------------------------
// Canonical suit relabeling from the board.
// ------------------------------------------------------------------

/// Powers of two, for the board-rank bitmask.
pub open spec fn pow2(e: int) -> nat
    decreases e,
{
    if e <= 0 {
        1
    } else {
        2 * pow2(e - 1)
    }
}

/// How many board cards carry suit `s`.
pub open spec fn suit_count(board: Seq<Card>, s: int) -> nat
    decreases board.len(),
{
    if board.len() == 0 {
        0
    } else {
        suit_count(board.drop_last(), s) + if board.last().suit == s {
            1nat
        } else {
            0nat
        }
    }
}

/// Whether some board card has suit `s` and rank `r`.
pub open spec fn suit_has_rank(board: Seq<Card>, s: int, r: int) -> bool {
    exists|i: int| 0 <= i < board.len() && (#[trigger] board[i]).suit == s && board[i].rank == r
}

/// The partial bitmask of suit `s` over ranks below `r`: bit `q` set
/// exactly when the board shows rank `q` in suit `s`.
pub open spec fn suit_mask_below(board: Seq<Card>, s: int, r: int) -> nat
    decreases r,
{
    if r <= 0 {
        0
    } else {
        suit_mask_below(board, s, r - 1) + if suit_has_rank(board, s, r - 1) {
            pow2(r - 1)
        } else {
            0nat
        }
    }
}

/// The board-rank bitmask of suit `s`.
pub open spec fn suit_mask(board: Seq<Card>, s: int) -> nat {
    suit_mask_below(board, s, 13)
}

/// Suit `t` sorts strictly before suit `s` in the canonical order:
/// more board cards first, then the larger rank bitmask, then the
/// smaller original suit id.
pub open spec fn suit_before(board: Seq<Card>, t: int, s: int) -> bool {
    ||| suit_count(board, t) > suit_count(board, s)
    ||| (suit_count(board, t) == suit_count(board, s) && suit_mask(board, t) > suit_mask(board, s))
    ||| (suit_count(board, t) == suit_count(board, s) && suit_mask(board, t) == suit_mask(board, s)
        && t < s)
}

pub open spec fn b2i(b: bool) -> int {
    if b {
        1
    } else {
        0
    }
}

/// The canonical label of suit `s`: how many suits sort before it.
pub open spec fn canon_suit(board: Seq<Card>, s: int) -> int {
    b2i(suit_before(board, 0, s)) + b2i(suit_before(board, 1, s)) + b2i(suit_before(board, 2, s))
        + b2i(suit_before(board, 3, s))
}

/// The canonical order is a strict total order (counts, then masks,
/// then original ids break every tie), so a suit that sorts before
/// another gets the strictly smaller label.
proof fn lemma_canon_suit_lt(board: Seq<Card>, s: int, t: int)
    requires
        0 <= s < 4,
        0 <= t < 4,
        s != t,
        suit_before(board, s, t),
    ensures
        canon_suit(board, s) < canon_suit(board, t),
{
    assert forall|u: int|
        0 <= u < 4 && suit_before(board, u, s) implies suit_before(board, u, t) by {}
    assert(!suit_before(board, s, s));
    assert(!suit_before(board, t, s));
    assert(!suit_before(board, t, t));
}

/// Distinct suits always get distinct canonical labels.
pub proof fn lemma_canon_suit_injective(board: Seq<Card>, s: int, t: int)
    requires
        0 <= s < 4,
        0 <= t < 4,
        s != t,
    ensures
        canon_suit(board, s) != canon_suit(board, t),
{
    if suit_before(board, s, t) {
        lemma_canon_suit_lt(board, s, t);
    } else {
        assert(suit_before(board, t, s));
        lemma_canon_suit_lt(board, t, s);
    }
}

/// Compute each suit's canonical label from the board.
#[verifier::loop_isolation(false)]
pub fn canonical_suit_map(board: &Vec<Card>) -> (m: Vec<u8>)
    requires
        board@.len() <= 5,
        crate::card::all_cards_wf(board@),
    ensures
        m@.len() == 4,
        forall|s: int| 0 <= s < 4 ==> #[trigger] m@[s] as int == canon_suit(board@, s),
        forall|s: int| 0 <= s < 4 ==> #[trigger] m@[s] < 4,
{
    let ghost b = board@;

    // Board cards per suit.
    let mut counts: Vec<u8> = Vec::new();
    let mut s: usize = 0;
    while s < 4
        invariant
            s <= 4,
            counts@.len() == s,
            forall|q: int| 0 <= q < s ==> #[trigger] counts@[q] as nat == suit_count(b, q),
        decreases 4 - s,
    {
        let mut c: u8 = 0;
        let mut i: usize = 0;
        while i < board.len()
            invariant
                i <= b.len(),
                b.len() <= 5,
                s < 4,
                c as nat == suit_count(b.take(i as int), s as int),
                c <= i,
            decreases b.len() - i,
        {
            proof {
                assert(b.take(i + 1) =~= b.take(i as int).push(b[i as int]));
                lemma_suit_count_snoc(b.take(i as int), b[i as int], s as int);
            }
            if board[i].suit == s as u8 {
                c = c + 1;
            }
            i = i + 1;
        }
        proof {
            assert(b.take(b.len() as int) =~= b);
        }
        counts.push(c);
        s = s + 1;
    }

    // Rank bitmask per suit.
    let mut masks: Vec<u16> = Vec::new();
    let mut s2: usize = 0;
    while s2 < 4
        invariant
            s2 <= 4,
            masks@.len() == s2,
            forall|q: int| 0 <= q < s2 ==> #[trigger] masks@[q] as nat == suit_mask(b, q),
        decreases 4 - s2,
    {
        let mut mask: u16 = 0;
        let mut p: u16 = 1;
        let mut r: usize = 0;
        while r < 13
            invariant
                r <= 13,
                s2 < 4,
                mask as nat == suit_mask_below(b, s2 as int, r as int),
                p as nat == pow2(r as int),
                p <= 8192,
                mask < p,
            decreases 13 - r,
        {
            proof {
                lemma_pow2_values();
                lemma_pow2_mono(r + 1, 13);
                lemma_mask_lt_pow2(b, s2 as int, r as int);
            }
            let mut found = false;
            let mut i: usize = 0;
            while i < board.len()
                invariant
                    i <= b.len(),
                    s2 < 4,
                    r < 13,
                    found == exists|j: int|
                        0 <= j < i && (#[trigger] b[j]).suit == s2 as int && b[j].rank == r as int,
                decreases b.len() - i,
            {
                if board[i].suit == s2 as u8 && board[i].rank == r as u8 {
                    found = true;
                }
                i = i + 1;
            }
            assert(found == suit_has_rank(b, s2 as int, r as int));
            if found {
                mask = mask + p;
            }
            if r < 12 {
                p = p * 2;
            } else {
                p = 8192;
            }
            r = r + 1;
        }
        masks.push(mask);
        s2 = s2 + 1;
    }

    // Canonical label: how many suits sort before this one.
    let mut m: Vec<u8> = Vec::new();
    let mut s3: usize = 0;
    while s3 < 4
        invariant
            s3 <= 4,
            m@.len() == s3,
            counts@.len() == 4,
            masks@.len() == 4,
            forall|q: int| 0 <= q < 4 ==> #[trigger] counts@[q] as nat == suit_count(b, q),
            forall|q: int| 0 <= q < 4 ==> #[trigger] masks@[q] as nat == suit_mask(b, q),
            forall|q: int| 0 <= q < s3 ==> #[trigger] m@[q] as int == canon_suit(b, q),
            forall|q: int| 0 <= q < s3 ==> #[trigger] m@[q] < 4,
        decreases 4 - s3,
    {
        let mut c: u8 = 0;
        let mut t: usize = 0;
        while t < 4
            invariant
                t <= 4,
                s3 < 4,
                counts@.len() == 4,
                masks@.len() == 4,
                forall|q: int| 0 <= q < 4 ==> #[trigger] counts@[q] as nat == suit_count(b, q),
                forall|q: int| 0 <= q < 4 ==> #[trigger] masks@[q] as nat == suit_mask(b, q),
                c as int == canon_below(b, s3 as int, t as int),
                c <= t,
            decreases 4 - t,
        {
            let before = counts[t] > counts[s3] || (counts[t] == counts[s3] && masks[t]
                > masks[s3]) || (counts[t] == counts[s3] && masks[t] == masks[s3] && t < s3);
            assert(before == suit_before(b, t as int, s3 as int));
            if before {
                c = c + 1;
            }
            t = t + 1;
        }
        proof {
            lemma_canon_below_total(b, s3 as int);
        }
        m.push(c);
        s3 = s3 + 1;
    }
    m
}

/// The canonical label as a prefix count over the suits below `t`.
pub open spec fn canon_below(board: Seq<Card>, s: int, t: int) -> int
    decreases t,
{
    if t <= 0 {
        0
    } else {
        canon_below(board, s, t - 1) + b2i(suit_before(board, t - 1, s))
    }
}

proof fn lemma_canon_below_total(board: Seq<Card>, s: int)
    ensures
        canon_below(board, s, 4) == canon_suit(board, s),
{
    assert(canon_below(board, s, 1) == canon_below(board, s, 0) + b2i(suit_before(board, 0, s)));
    assert(canon_below(board, s, 2) == canon_below(board, s, 1) + b2i(suit_before(board, 1, s)));
    assert(canon_below(board, s, 3) == canon_below(board, s, 2) + b2i(suit_before(board, 2, s)));
    assert(canon_below(board, s, 4) == canon_below(board, s, 3) + b2i(suit_before(board, 3, s)));
}

proof fn lemma_suit_count_snoc(board: Seq<Card>, c: Card, s: int)
    ensures
        suit_count(board.push(c), s) == suit_count(board, s) + if c.suit == s {
            1nat
        } else {
            0nat
        },
{
    assert(board.push(c).drop_last() =~= board);
    assert(board.push(c).last() == c);
}

proof fn lemma_pow2_values()
    ensures
        pow2(0) == 1,
        pow2(1) == 2,
        pow2(12) == 4096,
        pow2(13) == 8192,
{
    assert(pow2(0) == 1);
    assert(pow2(1) == 2);
    assert(pow2(2) == 4);
    assert(pow2(3) == 8);
    assert(pow2(4) == 16);
    assert(pow2(5) == 32);
    assert(pow2(6) == 64);
    assert(pow2(7) == 128);
    assert(pow2(8) == 256);
    assert(pow2(9) == 512);
    assert(pow2(10) == 1024);
    assert(pow2(11) == 2048);
    assert(pow2(12) == 4096);
    assert(pow2(13) == 8192);
}

/// Powers of two grow with the exponent.
proof fn lemma_pow2_mono(a: int, b: int)
    requires
        a <= b,
    ensures
        pow2(a) <= pow2(b),
    decreases b - a,
{
    if a < b {
        lemma_pow2_mono(a, b - 1);
    }
}

/// A partial mask stays below the next power of two.
proof fn lemma_mask_lt_pow2(board: Seq<Card>, s: int, r: int)
    requires
        0 <= r,
    ensures
        suit_mask_below(board, s, r) < pow2(r),
    decreases r,
{
    if r > 0 {
        lemma_mask_lt_pow2(board, s, r - 1);
    }
}

// ------------------------------------------------------------------
// The postflop bucket.
// ------------------------------------------------------------------

/// The canonical index of one hole card: `rank * 4 + canonical suit`.
pub open spec fn canon_card_index(board: Seq<Card>, c: Card) -> int {
    c.rank * 4 + canon_suit(board, c.suit as int)
}

/// The suit-symmetry-reduced identifier of a hole pair over a board:
/// both cards are relabeled canonically and the two indices `i > j`
/// combine through the triangular formula `i*(i-1)/2 + j`.
pub open spec fn hole_pair_index(board: Seq<Card>, c1: Card, c2: Card) -> int {
    let i1 = canon_card_index(board, c1);
    let i2 = canon_card_index(board, c2);
    let hi = if i1 >= i2 {
        i1
    } else {
        i2
    };
    let lo = if i1 >= i2 {
        i2
    } else {
        i1
    };
    hi * (hi - 1) / 2 + lo
}

/// The abstraction bucket of a holding: the preflop class ordinal less
/// one while no community card is out, the suit-reduced combination
/// identifier afterwards.
pub open spec fn range_idx_of(stage: Stage, board: Seq<Card>, hand: (Card, Card)) -> int {
    if board.len() == 0 || stage == Stage::Preflop {
        preflop_class(hand.0, hand.1) - 1
    } else {
        hole_pair_index(board, hand.0, hand.1)
    }
}

/// Law: the preflop bucket of a holding depends only on the two ranks
/// and on whether the suits match.  Any two holdings with equal rank
/// pairs and equal suitedness -- ace-king suited in spades or in
/// hearts alike -- fall in the same class.
pub proof fn lemma_preflop_class_suit_invariant(a: (Card, Card), b: (Card, Card))
    requires
        a.0.rank == b.0.rank,
        a.1.rank == b.1.rank,
        (a.0.suit == a.1.suit) <==> (b.0.suit == b.1.suit),
    ensures
        preflop_class(a.0, a.1) == preflop_class(b.0, b.1),
{
}

/// Counting a suit's board cards commutes with relabeling the suits.
proof fn lemma_suit_count_perm(board1: Seq<Card>, board2: Seq<Card>, perm: Seq<int>, s: int)
    requires
        perm.len() == 4,
        forall|q: int| 0 <= q < 4 ==> 0 <= #[trigger] perm[q] < 4,
        forall|q: int, t: int| 0 <= q < t < 4 ==> perm[q] != perm[t],
        board2.len() == board1.len(),
        forall|i: int|
            0 <= i < board1.len() ==> (#[trigger] board2[i]).rank == board1[i].rank && board1[
            i].suit <= 3 && board2[i].suit as int == perm[board1[i].suit as int],
        0 <= s < 4,
    ensures
        suit_count(board2, perm[s]) == suit_count(board1, s),
    decreases board1.len(),
{
    if board1.len() > 0 {
        let p1 = board1.drop_last();
        let p2 = board2.drop_last();
        assert(forall|i: int| 0 <= i < p1.len() ==> p1[i] == board1[i] && p2[i] == board2[i]);
        lemma_suit_count_perm(p1, p2, perm, s);
        let c1 = board1.last();
        let c2 = board2.last();
        assert(c1 == board1[board1.len() - 1] && c2 == board2[board1.len() - 1]);
        // The relabeled last card lands on `perm[s]` exactly when the
        // original lay on `s`.
        if c1.suit as int == s {
            assert(c2.suit as int == perm[s]);
        } else {
            let q = c1.suit as int;
            assert(perm[q] != perm[s]) by {
                if q < s {
                } else {
                }
            }
            assert(c2.suit as int != perm[s]);
        }
    }
}

/// Board rank presence per suit commutes with relabeling the suits.
proof fn lemma_suit_has_rank_perm(
    board1: Seq<Card>,
    board2: Seq<Card>,
    perm: Seq<int>,
    s: int,
    r: int,
)
    requires
        perm.len() == 4,
        forall|q: int| 0 <= q < 4 ==> 0 <= #[trigger] perm[q] < 4,
        forall|q: int, t: int| 0 <= q < t < 4 ==> perm[q] != perm[t],
        board2.len() == board1.len(),
        forall|i: int|
            0 <= i < board1.len() ==> (#[trigger] board2[i]).rank == board1[i].rank && board1[
            i].suit <= 3 && board2[i].suit as int == perm[board1[i].suit as int],
        0 <= s < 4,
    ensures
        suit_has_rank(board2, perm[s], r) == suit_has_rank(board1, s, r),
{
    if suit_has_rank(board1, s, r) {
        let i = choose|i: int|
            0 <= i < board1.len() && (#[trigger] board1[i]).suit == s && board1[i].rank == r;
        assert(board2[i].suit == perm[s] && board2[i].rank == r);
    }
    if suit_has_rank(board2, perm[s], r) {
        let i = choose|i: int|
            0 <= i < board2.len() && (#[trigger] board2[i]).suit == perm[s] && board2[i].rank == r;
        let q = board1[i].suit as int;
        assert(perm[q] == perm[s]);
        assert(q == s) by {
            if q < s {
            } else if s < q {
            }
        }
    }
}

/// The board-rank bitmask per suit commutes with relabeling the suits.
proof fn lemma_suit_mask_perm(
    board1: Seq<Card>,
    board2: Seq<Card>,
    perm: Seq<int>,
    s: int,
    r: int,
)
    requires
        perm.len() == 4,
        forall|q: int| 0 <= q < 4 ==> 0 <= #[trigger] perm[q] < 4,
        forall|q: int, t: int| 0 <= q < t < 4 ==> perm[q] != perm[t],
        board2.len() == board1.len(),
        forall|i: int|
            0 <= i < board1.len() ==> (#[trigger] board2[i]).rank == board1[i].rank && board1[
            i].suit <= 3 && board2[i].suit as int == perm[board1[i].suit as int],
        0 <= s < 4,
    ensures
        suit_mask_below(board2, perm[s], r) == suit_mask_below(board1, s, r),
    decreases r,
{
    if r > 0 {
        lemma_suit_mask_perm(board1, board2, perm, s, r - 1);
        lemma_suit_has_rank_perm(board1, board2, perm, s, r - 1);
    }
}

/// Four distinct suit labels in a four-label range hit every label.
proof fn lemma_perm_surjective(perm: Seq<int>, v: int)
    requires
        perm.len() == 4,
        forall|q: int| 0 <= q < 4 ==> 0 <= #[trigger] perm[q] < 4,
        forall|q: int, t: int| 0 <= q < t < 4 ==> perm[q] != perm[t],
        0 <= v < 4,
    ensures
        exists|q: int| 0 <= q < 4 && #[trigger] perm[q] == v,
{
    if !(exists|q: int| 0 <= q < 4 && #[trigger] perm[q] == v) {
        assert(perm[0] != v && perm[1] != v && perm[2] != v && perm[3] != v);
        assert(perm[0] != perm[1] && perm[0] != perm[2] && perm[0] != perm[3] && perm[1] != perm[2]
            && perm[1] != perm[3] && perm[2] != perm[3]);
        assert(false);
    }
}

/// Law: the postflop bucket is invariant under a global relabeling of
/// the suits of the board and the hole cards together, as long as no
/// two suits show the identical pattern on the board (the same card
/// count and the same rank set).  When two suits tie exactly, the
/// canonical order falls back to the original suit identities, and a
/// relabeling may then renumber them differently; such boards are the
/// one exception to the invariance.
pub proof fn lemma_postflop_suit_relabel(
    board1: Seq<Card>,
    board2: Seq<Card>,
    perm: Seq<int>,
    h1: (Card, Card),
    h2: (Card, Card),
)
    requires
        perm.len() == 4,
        forall|q: int| 0 <= q < 4 ==> 0 <= #[trigger] perm[q] < 4,
        forall|q: int, t: int| 0 <= q < t < 4 ==> perm[q] != perm[t],
        board2.len() == board1.len(),
        forall|i: int|
            0 <= i < board1.len() ==> (#[trigger] board2[i]).rank == board1[i].rank && board1[
            i].suit <= 3 && board2[i].suit as int == perm[board1[i].suit as int],
        h1.0.wf() && h1.1.wf(),
        h2.0.rank == h1.0.rank && h2.0.suit as int == perm[h1.0.suit as int],
        h2.1.rank == h1.1.rank && h2.1.suit as int == perm[h1.1.suit as int],
        forall|s: int, t: int|
            0 <= s < t < 4 ==> !(suit_count(board1, s) == suit_count(board1, t) && suit_mask(
                board1,
                s,
            ) == suit_mask(board1, t)),
    ensures
        hole_pair_index(board2, h2.0, h2.1) == hole_pair_index(board1, h1.0, h1.1),
{
    // Counts and masks relabel along with the suits.
    assert forall|s: int| 0 <= s < 4 implies suit_count(board2, #[trigger] perm[s]) == suit_count(
        board1,
        s,
    ) && suit_mask(board2, perm[s]) == suit_mask(board1, s) by {
        lemma_suit_count_perm(board1, board2, perm, s);
        lemma_suit_mask_perm(board1, board2, perm, s, 13);
    }

    // With no two suits sharing a pattern, the canonical comparison is
    // decided by counts and masks alone, so it relabels too.
    assert forall|s: int, t: int| 0 <= s < 4 && 0 <= t < 4 implies suit_before(
        board2,
        #[trigger] perm[t],
        #[trigger] perm[s],
    ) == suit_before(board1, t, s) by {
        if s != t {
            assert(!(suit_count(board1, s) == suit_count(board1, t) && suit_mask(board1, s)
                == suit_mask(board1, t))) by {
                if s < t {
                } else {
                }
            }
        } else {
            assert(perm[t] == perm[s]);
        }
    }

    // Every suit label is hit by the relabeling: four distinct values
    // in a four-value range cover it.
    lemma_perm_surjective(perm, 0);
    lemma_perm_surjective(perm, 1);
    lemma_perm_surjective(perm, 2);
    lemma_perm_surjective(perm, 3);

    // The canonical label of each suit is preserved.
    assert forall|s: int| 0 <= s < 4 implies canon_suit(board2, #[trigger] perm[s]) == canon_suit(
        board1,
        s,
    ) by {
        let q0 = choose|q: int| 0 <= q < 4 && #[trigger] perm[q] == 0;
        let q1 = choose|q: int| 0 <= q < 4 && #[trigger] perm[q] == 1;
        let q2 = choose|q: int| 0 <= q < 4 && #[trigger] perm[q] == 2;
        let q3 = choose|q: int| 0 <= q < 4 && #[trigger] perm[q] == 3;
        assert(b2i(suit_before(board2, 0, perm[s])) == b2i(suit_before(board1, q0, s)));
        assert(b2i(suit_before(board2, 1, perm[s])) == b2i(suit_before(board1, q1, s)));
        assert(b2i(suit_before(board2, 2, perm[s])) == b2i(suit_before(board1, q2, s)));
        assert(b2i(suit_before(board2, 3, perm[s])) == b2i(suit_before(board1, q3, s)));
        assert(q0 != q1 && q0 != q2 && q0 != q3 && q1 != q2 && q1 != q3 && q2 != q3);
        assert(canon_suit(board1, s) == b2i(suit_before(board1, 0, s)) + b2i(
            suit_before(board1, 1, s),
        ) + b2i(suit_before(board1, 2, s)) + b2i(suit_before(board1, 3, s)));
        assert(b2i(suit_before(board1, q0, s)) + b2i(suit_before(board1, q1, s)) + b2i(
            suit_before(board1, q2, s),
        ) + b2i(suit_before(board1, q3, s)) == canon_suit(board1, s));
    }

    assert(canon_card_index(board2, h2.0) == canon_card_index(board1, h1.0));
    assert(canon_card_index(board2, h2.1) == canon_card_index(board1, h1.1));
}

/// Compute the abstraction bucket of one holding.
pub fn calculate_range_idx_cards(stage: Stage, board: &Vec<Card>, hand: (Card, Card)) -> (idx:
    i64)
    requires
        board@.len() <= 5,
        crate::card::all_cards_wf(board@),
        hand.0.wf(),
        hand.1.wf(),
    ensures
        idx == range_idx_of(stage, board@, hand),
        0 <= idx <= 1326,
        hand.0 != hand.1 ==> idx <= 1325,
{
    if board.len() == 0 || matches!(stage, Stage::Preflop) {
        let r = evaluate_2cards(hand.0, hand.1);
        r - 1
    } else {
        let m = canonical_suit_map(board);
        assert(m@[hand.0.suit as int] < 4);
        assert(m@[hand.1.suit as int] < 4);
        let i1: i64 = hand.0.rank as i64 * 4 + m[hand.0.suit as usize] as i64;
        let i2: i64 = hand.1.rank as i64 * 4 + m[hand.1.suit as usize] as i64;
        let hi = if i1 >= i2 {
            i1
        } else {
            i2
        };
        let lo = if i1 >= i2 {
            i2
        } else {
            i1
        };
        assert(0 <= lo <= hi <= 51);
        proof {
            assert(0 <= hi * (hi - 1) <= 2550) by (nonlinear_arith)
                requires
                    0 <= hi <= 51,
            ;
            // Two distinct cards land on distinct canonical indices,
            // so the triangular pairing stays under its 1326 values.
            if hand.0 != hand.1 {
                if hand.0.rank == hand.1.rank {
                    lemma_canon_suit_injective(
                        board@,
                        hand.0.suit as int,
                        hand.1.suit as int,
                    );
                }
                assert(i1 != i2);
                assert(lo < hi);
            }
        }
        hi * (hi - 1) / 2 + lo
    }
}

} // verus!
