//! Five-card hand evaluator.
//!
//! A holding of 2 hole cards plus up to 5 community cards is ranked by
//! scoring every 5-card subset and keeping the best.  A 5-card hand maps
//! to an ordered key `(category, primary, secondary)`: category 1 is a
//! royal flush down to category 10 for a bare high card, and the
//! tiebreak values are base-13 positional encodings of the relevant
//! ranks, so that two keys compare correctly by plain tuple order with
//! lower sorting better.

use vstd::prelude::*;

use itertools::Itertools;

use crate::card::{all_cards_wf, Card};

verus! {

/// The totally ordered key of a five-card hand; lower sorts better.
#[derive(Clone, Copy, PartialEq, Eq, Structural, Debug)]
pub struct HandKey {
    pub category: u64,
    pub primary: u64,
    pub secondary: u64,
}

impl HandKey {
    /// Tuple order: category first, then the tiebreaks.
    pub open spec fn le(self, other: HandKey) -> bool {
        ||| self.category < other.category
        ||| (self.category == other.category && self.primary < other.primary)
        ||| (self.category == other.category && self.primary == other.primary
            && self.secondary <= other.secondary)
    }

    /// `self` sorts at least as good (as low) as `other`.
    pub fn le_exec(&self, other: &HandKey) -> (r: bool)
        ensures
            r == self.le(*other),
    {
        if self.category != other.category {
            self.category < other.category
        } else if self.primary != other.primary {
            self.primary < other.primary
        } else {
            self.secondary <= other.secondary
        }
    }
}

// ------------------------------------------------------------------
// Rank counts of a hand, as specification-level functions.
// ------------------------------------------------------------------

/// How many cards of `cs` have rank `r`.
pub open spec fn count_rank(cs: Seq<Card>, r: int) -> nat
    decreases cs.len(),
{
    if cs.len() == 0 {
        0
    } else {
        count_rank(cs.drop_last(), r) + if cs.last().rank == r {
            1nat
        } else {
            0nat
        }
    }
}

/// How many cards of `cs` have a rank below `r`.
pub open spec fn count_below(cs: Seq<Card>, r: int) -> nat
    decreases r,
{
    if r <= 0 {
        0
    } else {
        count_below(cs, r - 1) + count_rank(cs, r - 1)
    }
}

/// How many ranks below `r` are paired (appear exactly twice) in `cs`.
pub open spec fn pairs_below(cs: Seq<Card>, r: int) -> nat
    decreases r,
{
    if r <= 0 {
        0
    } else {
        pairs_below(cs, r - 1) + if count_rank(cs, r - 1) == 2 {
            1nat
        } else {
            0nat
        }
    }
}

/// The number of paired ranks of the hand.
pub open spec fn num_pairs(cs: Seq<Card>) -> nat {
    pairs_below(cs, 13)
}

/// Some rank occurs exactly `n` times.
pub open spec fn has_count(cs: Seq<Card>, n: nat) -> bool {
    exists|r: int| 0 <= r < 13 && count_rank(cs, r) == n
}

/// Extending a hand by one card bumps exactly that card's rank count.
proof fn lemma_count_rank_snoc(cs: Seq<Card>, c: Card, r: int)
    ensures
        count_rank(cs.push(c), r) == count_rank(cs, r) + if c.rank == r {
            1nat
        } else {
            0nat
        },
{
    assert(cs.push(c).drop_last() =~= cs);
    assert(cs.push(c).last() == c);
}

/// `count_below` is monotone in the rank bound.
proof fn lemma_count_below_mono(cs: Seq<Card>, a: int, b: int)
    requires
        a <= b,
    ensures
        count_below(cs, a) <= count_below(cs, b),
    decreases b - a,
{
    if a < b {
        lemma_count_below_mono(cs, a, b - 1);
    }
}

/// A single rank's count is part of any `count_below` that covers it.
proof fn lemma_count_rank_le_below(cs: Seq<Card>, r: int, b: int)
    requires
        0 <= r < b,
    ensures
        count_rank(cs, r) <= count_below(cs, b),
{
    lemma_count_below_mono(cs, r + 1, b);
}

/// Every card of a well-formed hand is counted: the counts of ranks
/// 0..13 sum to the hand's size.
proof fn lemma_count_below_total(cs: Seq<Card>)
    requires
        all_cards_wf(cs),
    ensures
        count_below(cs, 13) == cs.len(),
    decreases cs.len(),
{
    if cs.len() == 0 {
        lemma_count_below_empty(cs, 13);
    } else {
        let prev = cs.drop_last();
        assert(all_cards_wf(prev)) by {
            assert(forall|i: int| 0 <= i < prev.len() ==> prev[i] == cs[i]);
        }
        lemma_count_below_total(prev);
        lemma_count_below_snoc(prev, cs.last(), 13);
        assert(cs =~= prev.push(cs.last()));
        assert((#[trigger] cs[cs.len() - 1]).wf());
        assert(cs.last().rank < 13);
    }
}

/// An empty hand has empty partial sums.
proof fn lemma_count_below_empty(cs: Seq<Card>, r: int)
    requires
        cs.len() == 0,
    ensures
        count_below(cs, r) == 0,
    decreases r,
{
    if r > 0 {
        lemma_count_below_empty(cs, r - 1);
    }
}

/// How one more card changes the partial sums of the counts.
proof fn lemma_count_below_snoc(cs: Seq<Card>, c: Card, r: int)
    ensures
        count_below(cs.push(c), r) == count_below(cs, r) + if c.rank < r {
            1nat
        } else {
            0nat
        },
    decreases r,
{
    if r > 0 {
        lemma_count_below_snoc(cs, c, r - 1);
        lemma_count_rank_snoc(cs, c, r - 1);
    }
}

/// `pairs_below` is monotone in the rank bound.
proof fn lemma_pairs_below_mono(cs: Seq<Card>, a: int, b: int)
    requires
        a <= b,
    ensures
        pairs_below(cs, a) <= pairs_below(cs, b),
    decreases b - a,
{
    if a < b {
        lemma_pairs_below_mono(cs, a, b - 1);
    }
}

// ------------------------------------------------------------------
// Hand shape predicates.
// ------------------------------------------------------------------

/// All five cards share one suit.
pub open spec fn is_flush(cs: Seq<Card>) -> bool {
    forall|i: int| 0 <= i < cs.len() ==> (#[trigger] cs[i]).suit == cs[0].suit
}

/// The hand is exactly the five consecutive ranks `low..low+5`.
pub open spec fn is_straight_at(cs: Seq<Card>, low: int) -> bool {
    forall|r: int| low <= r < low + 5 ==> #[trigger] count_rank(cs, r) == 1
}

/// The wheel: ace plus the four lowest ranks, A-2-3-4-5.
pub open spec fn is_wheel(cs: Seq<Card>) -> bool {
    count_rank(cs, 12) == 1 && (forall|r: int| 0 <= r < 4 ==> #[trigger] count_rank(cs, r) == 1)
}

/// Five cards in sequence, the wheel included.
pub open spec fn is_straight(cs: Seq<Card>) -> bool {
    is_wheel(cs) || exists|low: int| 0 <= low <= 8 && is_straight_at(cs, low)
}

/// The index of the straight's highest rank, with the wheel counting as
/// five-high: the lowest of all straights.
pub open spec fn straight_high(cs: Seq<Card>) -> int {
    if is_wheel(cs) {
        3
    } else {
        (choose|low: int| 0 <= low <= 8 && is_straight_at(cs, low)) + 4
    }
}

/// A straight's low end is unique on a 5-card hand, and excludes the wheel.
proof fn lemma_straight_at_unique(cs: Seq<Card>, l1: int, l2: int)
    requires
        cs.len() == 5,
        all_cards_wf(cs),
        0 <= l1 <= 8,
        0 <= l2 <= 8,
        is_straight_at(cs, l1),
        is_straight_at(cs, l2),
    ensures
        l1 == l2,
{
    lemma_count_below_total(cs);
    if l1 < l2 {
        assert(count_rank(cs, l1) == 1);
        assert(count_below(cs, 13) >= 6) by {
            lemma_six_ones(cs, l1, l2);
        }
    } else if l2 < l1 {
        assert(count_below(cs, 13) >= 6) by {
            lemma_six_ones(cs, l2, l1);
        }
    }
}

/// Overlapping straights at two distinct lows would need six cards.
proof fn lemma_six_ones(cs: Seq<Card>, l1: int, l2: int)
    requires
        0 <= l1 < l2 <= 8,
        is_straight_at(cs, l1),
        is_straight_at(cs, l2),
    ensures
        count_below(cs, 13) >= 6,
{
    // The ranks l1..l1+5 and l2..l2+5 cover at least six distinct ranks
    // below 13, each holding one card.
    assert(count_rank(cs, l1) == 1);
    assert(count_below(cs, l1 + 1) >= 1) by {
        lemma_count_rank_le_below(cs, l1, l1 + 1);
    }
    lemma_count_below_mono(cs, l1 + 1, l2);
    lemma_five_in_row(cs, l2);
    assert(count_below(cs, l2 + 5) >= count_below(cs, l2) + 5);
    lemma_count_below_mono(cs, l2 + 5, 13);
}

/// Five consecutive single ranks contribute five to the partial sums.
proof fn lemma_five_in_row(cs: Seq<Card>, low: int)
    requires
        0 <= low,
        is_straight_at(cs, low),
    ensures
        count_below(cs, low + 5) >= count_below(cs, low) + 5,
{
    assert forall|r: int| low <= r < low + 5 implies count_rank(cs, r) == 1 by {}
    assert(count_below(cs, low + 1) == count_below(cs, low) + count_rank(cs, low));
    assert(count_below(cs, low + 2) == count_below(cs, low + 1) + count_rank(cs, low + 1));
    assert(count_below(cs, low + 3) == count_below(cs, low + 2) + count_rank(cs, low + 2));
    assert(count_below(cs, low + 4) == count_below(cs, low + 3) + count_rank(cs, low + 3));
    assert(count_below(cs, low + 5) == count_below(cs, low + 4) + count_rank(cs, low + 4));
}

/// The highest rank below `r` that occurs exactly `n` times, or -1 when
/// no rank below `r` does.
pub open spec fn top_with_count(cs: Seq<Card>, n: nat, r: int) -> int
    decreases r,
{
    if r <= 0 {
        -1
    } else if count_rank(cs, r - 1) == n {
        r - 1
    } else {
        top_with_count(cs, n, r - 1)
    }
}

/// What the scan for the highest rank with a given count returns.
proof fn lemma_top_with_count(cs: Seq<Card>, n: nat, r: int)
    ensures
        top_with_count(cs, n, r) == -1 <==> (forall|q: int|
            0 <= q < r ==> #[trigger] count_rank(cs, q) != n),
        top_with_count(cs, n, r) != -1 ==> {
            let t = top_with_count(cs, n, r);
            &&& 0 <= t < r
            &&& count_rank(cs, t) == n
            &&& forall|q: int| t < q < r ==> #[trigger] count_rank(cs, q) != n
        },
    decreases r,
{
    if r > 0 && count_rank(cs, r - 1) != n {
        lemma_top_with_count(cs, n, r - 1);
    }
}

// ------------------------------------------------------------------
// Base-13 tiebreak encoding.
// ------------------------------------------------------------------

/// Powers of thirteen.
pub open spec fn pow13(e: int) -> int
    decreases e,
{
    if e <= 0 {
        1
    } else {
        13 * pow13(e - 1)
    }
}

/// The contribution of `m` cards of one rank occupying the ascending
/// sort positions `pos..pos+m`: each contributes `13^position * (12 - rank)`.
pub open spec fn hcv_geo(rank: int, m: nat, pos: int) -> int
    decreases m,
{
    if m == 0 {
        0
    } else {
        pow13(pos) * (12 - rank) + hcv_geo(rank, (m - 1) as nat, pos + 1)
    }
}

/// The encoding of all cards with rank below `r`, rank by rank.
pub open spec fn hcv_upto(cs: Seq<Card>, r: int) -> int
    decreases r,
{
    if r <= 0 {
        0
    } else {
        hcv_upto(cs, r - 1) + hcv_geo(r - 1, count_rank(cs, r - 1), count_below(cs, r - 1) as int)
    }
}

/// Base-13 positional encoding of the hand's ranks sorted ascending:
/// the card at ascending position `i` contributes `13^i * (12 - rank)`,
/// so the highest card weighs most and lower values mean better hands.
pub open spec fn hand_value(cs: Seq<Card>) -> int {
    hcv_upto(cs, 13)
}

proof fn lemma_pow13_pos(e: int)
    ensures
        pow13(e) >= 1,
    decreases e,
{
    if e > 0 {
        lemma_pow13_pos(e - 1);
    }
}

proof fn lemma_pow13_mono(a: int, b: int)
    requires
        a <= b,
    ensures
        pow13(a) <= pow13(b),
    decreases b - a,
{
    if a < b {
        lemma_pow13_mono(a, b - 1);
        lemma_pow13_pos(b - 1);
    }
}

/// One rank's cards fit in the base-13 gap between their positions.
proof fn lemma_hcv_geo_bound(rank: int, m: nat, pos: int)
    requires
        0 <= rank <= 12,
        0 <= pos,
    ensures
        0 <= hcv_geo(rank, m, pos) <= pow13(pos + m) - pow13(pos),
    decreases m,
{
    lemma_pow13_pos(pos);
    if m > 0 {
        lemma_hcv_geo_bound(rank, (m - 1) as nat, pos + 1);
        lemma_pow13_pos(pos + m);
        let p = pow13(pos);
        assert(0 <= p * (12 - rank) <= p * 12) by (nonlinear_arith)
            requires
                p >= 1,
                0 <= rank <= 12,
        ;
        assert(pow13(pos + 1) == 13 * p);
    }
}

/// The whole encoding stays below `13^(number of cards)`.
proof fn lemma_hcv_upto_bound(cs: Seq<Card>, r: int)
    requires
        0 <= r <= 13,
    ensures
        0 <= hcv_upto(cs, r) <= pow13(count_below(cs, r) as int) - 1,
    decreases r,
{
    if r == 0 {
        assert(count_below(cs, 0) == 0);
    } else {
        lemma_hcv_upto_bound(cs, r - 1);
        lemma_hcv_geo_bound(r - 1, count_rank(cs, r - 1), count_below(cs, r - 1) as int);
    }
}

/// The powers of thirteen that the five tiebreak positions can use.
proof fn lemma_pow13_values()
    ensures
        pow13(0) == 1,
        pow13(1) == 13,
        pow13(2) == 169,
        pow13(3) == 2197,
        pow13(4) == 28561,
        pow13(5) == 371293,
{
    assert(pow13(0) == 1);
    assert(pow13(1) == 13);
    assert(pow13(2) == 169);
    assert(pow13(3) == 2197);
    assert(pow13(4) == 28561);
    assert(pow13(5) == 371293);
}

// ------------------------------------------------------------------
// The score of one five-card hand.
// ------------------------------------------------------------------

/// The category of a five-card hand, 1 (royal flush) .. 10 (high card).
pub open spec fn category_of(cs: Seq<Card>) -> int {
    if is_straight(cs) && is_flush(cs) && straight_high(cs) == 12 {
        1
    } else if is_straight(cs) && is_flush(cs) {
        2
    } else if has_count(cs, 4) {
        3
    } else if has_count(cs, 3) && num_pairs(cs) >= 1 {
        4
    } else if is_flush(cs) {
        5
    } else if is_straight(cs) {
        6
    } else if has_count(cs, 3) {
        7
    } else if num_pairs(cs) == 2 {
        8
    } else if num_pairs(cs) == 1 {
        9
    } else {
        10
    }
}

/// The full key of a five-card hand.  Straights (categories 2 and 6)
/// break ties by their high card, the wheel counting as five-high and
/// therefore as the lowest straight; hands built on repeated ranks
/// (categories 3, 4, 7, 8, 9) put the repeated ranks first and the
/// whole hand's encoding second; flushes and high cards compare by the
/// whole hand's encoding alone.
pub open spec fn score5(cs: Seq<Card>) -> HandKey {
    let cat = category_of(cs);
    let hv = hand_value(cs) as u64;
    if cat == 1 {
        HandKey { category: 1, primary: 0, secondary: 0 }
    } else if cat == 2 {
        HandKey { category: 2, primary: (12 - straight_high(cs)) as u64, secondary: 0 }
    } else if cat == 3 {
        HandKey { category: 3, primary: (12 - top_with_count(cs, 4, 13)) as u64, secondary: hv }
    } else if cat == 4 {
        HandKey { category: 4, primary: (12 - top_with_count(cs, 3, 13)) as u64, secondary: hv }
    } else if cat == 5 {
        HandKey { category: 5, primary: hv, secondary: 0 }
    } else if cat == 6 {
        HandKey { category: 6, primary: (12 - straight_high(cs)) as u64, secondary: 0 }
    } else if cat == 7 {
        HandKey { category: 7, primary: (12 - top_with_count(cs, 3, 13)) as u64, secondary: hv }
    } else if cat == 8 {
        let hi = top_with_count(cs, 2, 13);
        let lo = top_with_count(cs, 2, hi);
        HandKey {
            category: 8,
            primary: ((12 - lo) + 13 * (12 - hi)) as u64,
            secondary: hv,
        }
    } else if cat == 9 {
        HandKey { category: 9, primary: (12 - top_with_count(cs, 2, 13)) as u64, secondary: hv }
    } else {
        HandKey { category: 10, primary: hv, secondary: 0 }
    }
}

/// The key used when fewer than five cards are available: the worst
/// category with an empty tiebreak, so a short deal degrades gracefully
/// instead of failing.
pub open spec fn no_hand_key() -> HandKey {
    HandKey { category: 10, primary: 0, secondary: 0 }
}

// ------------------------------------------------------------------
// Executable scoring.
// ------------------------------------------------------------------

/// A rank count never exceeds the hand size.
proof fn lemma_count_le_len(cs: Seq<Card>, r: int)
    ensures
        count_rank(cs, r) <= cs.len(),
    decreases cs.len(),
{
    if cs.len() > 0 {
        lemma_count_le_len(cs.drop_last(), r);
    }
}

/// Tally how often each rank occurs in the hand.
fn rank_counts(cards: &Vec<Card>) -> (counts: Vec<u8>)
    requires
        cards@.len() <= 7,
        all_cards_wf(cards@),
    ensures
        counts@.len() == 13,
        forall|r: int| 0 <= r < 13 ==> #[trigger] counts@[r] as nat == count_rank(cards@, r),
{
    let mut counts: Vec<u8> = Vec::new();
    let mut z: usize = 0;
    while z < 13
        invariant
            counts@.len() == z,
            z <= 13,
            forall|r: int| 0 <= r < z ==> #[trigger] counts@[r] == 0,
        decreases 13 - z,
    {
        counts.push(0);
        z = z + 1;
    }
    let mut i: usize = 0;
    while i < cards.len()
        invariant
            counts@.len() == 13,
            i <= cards@.len(),
            cards@.len() <= 7,
            all_cards_wf(cards@),
            forall|r: int|
                0 <= r < 13 ==> #[trigger] counts@[r] as nat == count_rank(
                    cards@.take(i as int),
                    r,
                ),
        decreases cards@.len() - i,
    {
        assert(cards@[i as int].wf());
        let rk = cards[i].rank as usize;
        proof {
            lemma_count_le_len(cards@.take(i as int), rk as int);
        }
        counts[rk] = counts[rk] + 1;
        proof {
            let prev = cards@.take(i as int);
            let next = cards@.take(i + 1);
            assert(next =~= prev.push(cards@[i as int]));
            assert forall|r: int| 0 <= r < 13 implies count_rank(next, r) == count_rank(prev, r)
                + if cards@[i as int].rank == r {
                1nat
            } else {
                0nat
            } by {
                lemma_count_rank_snoc(prev, cards@[i as int], r);
            }
        }
        i = i + 1;
    }
    proof {
        assert(cards@.take(cards@.len() as int) =~= cards@);
    }
    counts
}

/// Scan downward for the highest rank below `below` whose count is `n`.
fn top_scan(counts: &Vec<u8>, n: u8, below: usize, Ghost(cs): Ghost<Seq<Card>>) -> (t: i32)
    requires
        counts@.len() == 13,
        below <= 13,
        forall|r: int| 0 <= r < 13 ==> #[trigger] counts@[r] as nat == count_rank(cs, r),
    ensures
        t == top_with_count(cs, n as nat, below as int),
{
    let mut r: usize = below;
    while r > 0
        invariant
            r <= below,
            top_with_count(cs, n as nat, below as int) == top_with_count(cs, n as nat, r as int),
            counts@.len() == 13,
            below <= 13,
            forall|q: int| 0 <= q < 13 ==> #[trigger] counts@[q] as nat == count_rank(cs, q),
        decreases r,
    {
        if counts[r - 1] == n {
            return (r - 1) as i32;
        }
        r = r - 1;
    }
    -1
}

/// Exact powers of thirteen for the five tiebreak positions.
fn pow13_exec(e: usize) -> (p: u64)
    requires
        e <= 4,
    ensures
        p as int == pow13(e as int),
{
    proof {
        lemma_pow13_values();
    }
    if e == 0 {
        1
    } else if e == 1 {
        13
    } else if e == 2 {
        169
    } else if e == 3 {
        2197
    } else {
        28561
    }
}

/// The base-13 encoding of the whole hand, computed from the counts.
#[verifier::loop_isolation(false)]
fn hand_value_exec(counts: &Vec<u8>, Ghost(cs): Ghost<Seq<Card>>) -> (v: u64)
    requires
        counts@.len() == 13,
        cs.len() == 5,
        all_cards_wf(cs),
        forall|r: int| 0 <= r < 13 ==> #[trigger] counts@[r] as nat == count_rank(cs, r),
    ensures
        v as int == hand_value(cs),
        v <= 371292,
{
    proof {
        lemma_count_below_total(cs);
        lemma_pow13_values();
    }
    let mut v: u64 = 0;
    let mut pos: usize = 0;
    let mut r: usize = 0;
    while r < 13
        invariant
            r <= 13,
            pos as nat == count_below(cs, r as int),
            v as int == hcv_upto(cs, r as int),
            v <= 371292,
        decreases 13 - r,
    {
        let ghost pos0 = count_below(cs, r as int);
        let m = counts[r];
        let mut k: u8 = 0;
        while k < m
            invariant
                k <= m,
                pos as nat == pos0 + k,
                v as int == hcv_upto(cs, r as int) + hcv_geo(r as int, m as nat, pos0 as int)
                    - hcv_geo(r as int, (m - k) as nat, pos0 + k as int),
                v <= 371292,
            decreases m - k,
        {
            proof {
                // The next position is still within the five cards.
                assert(count_below(cs, r + 1) == count_below(cs, r as int) + count_rank(
                    cs,
                    r as int,
                ));
                lemma_count_below_mono(cs, r + 1, 13);
                assert(pos0 + m <= 5);
                // The partial value stays under the final bound.
                lemma_hcv_geo_bound(r as int, (m - k - 1) as nat, pos0 + k + 1);
                lemma_hcv_upto_bound(cs, r + 1);
                lemma_pow13_mono(count_below(cs, r + 1) as int, 5);
                assert(hcv_geo(r as int, (m - k) as nat, pos0 + k as int) == pow13(pos0 + k as int)
                    * (12 - r) + hcv_geo(r as int, (m - k - 1) as nat, pos0 + k + 1));
            }
            v = v + pow13_exec(pos) * (12 - r as u64);
            pos = pos + 1;
            k = k + 1;
        }
        proof {
            assert(count_below(cs, r + 1) == count_below(cs, r as int) + count_rank(cs, r as int));
            assert(hcv_upto(cs, r + 1) == hcv_upto(cs, r as int) + hcv_geo(
                r as int,
                count_rank(cs, r as int),
                count_below(cs, r as int) as int,
            ));
        }
        r = r + 1;
    }
    v
}

/// Every rank strictly between two bounds unpaired leaves the pair tally alone.
proof fn lemma_pairs_constant(cs: Seq<Card>, a: int, b: int)
    requires
        a <= b,
        forall|q: int| a <= q < b ==> #[trigger] count_rank(cs, q) != 2,
    ensures
        pairs_below(cs, b) == pairs_below(cs, a),
    decreases b - a,
{
    if a < b {
        lemma_pairs_constant(cs, a, b - 1);
    }
}

/// With no paired rank at all the pair tally is zero.
proof fn lemma_pairs_zero(cs: Seq<Card>, b: int)
    requires
        forall|q: int| 0 <= q < b ==> #[trigger] count_rank(cs, q) != 2,
    ensures
        pairs_below(cs, b) == 0,
{
    lemma_pairs_constant(cs, 0, if b >= 0 { b } else { 0 });
}

/// Score one five-card hand.
#[verifier::loop_isolation(false)]
#[verifier::rlimit(30)]
pub fn rank_card_combination(cards: &Vec<Card>) -> (key: HandKey)
    requires
        cards@.len() == 5,
        all_cards_wf(cards@),
    ensures
        key == score5(cards@),
{
    let ghost cs = cards@;
    let counts = rank_counts(cards);

    // Flush: all five cards share the first card's suit.
    let mut flush = true;
    let mut i: usize = 1;
    while i < 5
        invariant
            1 <= i <= 5,
            flush <==> (forall|j: int| 0 < j < i ==> (#[trigger] cs[j]).suit == cs[0].suit),
        decreases 5 - i,
    {
        if cards[i].suit != cards[0].suit {
            flush = false;
        }
        i = i + 1;
    }
    assert(flush == is_flush(cs));

    // The wheel and the regular straights, read off the counts.
    let wheel = counts[12] == 1 && counts[0] == 1 && counts[1] == 1 && counts[2] == 1 && counts[3]
        == 1;
    assert(wheel == is_wheel(cs));

    let mut slow: i32 = -1;
    let mut l: usize = 0;
    while l <= 8
        invariant
            l <= 9,
            slow == -1 ==> forall|l2: int| 0 <= l2 < l ==> !is_straight_at(cs, l2),
            slow != -1 ==> 0 <= slow <= 8 && is_straight_at(cs, slow as int),
        decreases 9 - l,
    {
        if slow == -1 && counts[l] == 1 && counts[l + 1] == 1 && counts[l + 2] == 1 && counts[l + 3]
            == 1 && counts[l + 4] == 1 {
            assert(is_straight_at(cs, l as int));
            slow = l as i32;
        }
        l = l + 1;
    }
    let straight = wheel || slow != -1;
    assert(straight == is_straight(cs)) by {
        if slow != -1 {
            assert(is_straight(cs));
        }
        if !wheel && slow == -1 {
            assert(forall|l2: int| 0 <= l2 <= 8 ==> !is_straight_at(cs, l2));
        }
    }
    let high: i32 = if wheel {
        3
    } else if slow != -1 {
        slow + 4
    } else {
        -1
    };
    assert(straight ==> high == straight_high(cs)) by {
        if straight && !wheel {
            let c = choose|low: int| 0 <= low <= 8 && is_straight_at(cs, low);
            lemma_straight_at_unique(cs, slow as int, c);
        }
    }

    let top4 = top_scan(&counts, 4, 13, Ghost(cs));
    let top3 = top_scan(&counts, 3, 13, Ghost(cs));
    proof {
        lemma_top_with_count(cs, 4, 13);
        lemma_top_with_count(cs, 3, 13);
    }
    assert((top4 != -1) == has_count(cs, 4));
    assert((top3 != -1) == has_count(cs, 3));

    // Count the paired ranks.
    let mut np: u8 = 0;
    let mut pr: usize = 0;
    while pr < 13
        invariant
            pr <= 13,
            np as nat == pairs_below(cs, pr as int),
            np <= pr,
        decreases 13 - pr,
    {
        if counts[pr] == 2 {
            np = np + 1;
        }
        pr = pr + 1;
    }
    assert(np as nat == num_pairs(cs));

    let hv = hand_value_exec(&counts, Ghost(cs));

    if straight && flush {
        if high == 12 {
            HandKey { category: 1, primary: 0, secondary: 0 }
        } else {
            HandKey { category: 2, primary: (12 - high) as u64, secondary: 0 }
        }
    } else if top4 != -1 {
        HandKey { category: 3, primary: (12 - top4) as u64, secondary: hv }
    } else if top3 != -1 && np >= 1 {
        HandKey { category: 4, primary: (12 - top3) as u64, secondary: hv }
    } else if flush {
        HandKey { category: 5, primary: hv, secondary: 0 }
    } else if straight {
        HandKey { category: 6, primary: (12 - high) as u64, secondary: 0 }
    } else if top3 != -1 {
        HandKey { category: 7, primary: (12 - top3) as u64, secondary: hv }
    } else if np == 2 {
        let hi = top_scan(&counts, 2, 13, Ghost(cs));
        proof {
            lemma_top_with_count(cs, 2, 13);
            if hi == -1 {
                lemma_pairs_zero(cs, 13);
            }
        }
        assert(0 <= hi < 13);
        let lo = top_scan(&counts, 2, hi as usize, Ghost(cs));
        proof {
            lemma_top_with_count(cs, 2, hi as int);
            lemma_pairs_constant(cs, hi + 1, 13);
            if lo == -1 {
                lemma_pairs_zero(cs, hi as int);
                assert(pairs_below(cs, hi + 1) == pairs_below(cs, hi as int) + 1);
            }
        }
        assert(0 <= lo < hi);
        HandKey { category: 8, primary: ((12 - lo) + 13 * (12 - hi)) as u64, secondary: hv }
    } else if np == 1 {
        let p = top_scan(&counts, 2, 13, Ghost(cs));
        proof {
            lemma_top_with_count(cs, 2, 13);
            if p == -1 {
                lemma_pairs_zero(cs, 13);
            }
        }
        assert(0 <= p < 13);
        HandKey { category: 9, primary: (12 - p) as u64, secondary: hv }
    } else {
        HandKey { category: 10, primary: hv, secondary: 0 }
    }
}

// ------------------------------------------------------------------
// The best five cards out of up to seven.
// ------------------------------------------------------------------

/// `idx` lists five strictly increasing positions of `all`.
pub open spec fn choice5_at(all: Seq<Card>, idx: Seq<int>) -> bool {
    &&& idx.len() == 5
    &&& (forall|i: int| 0 <= i < 5 ==> 0 <= #[trigger] idx[i] < all.len())
    &&& (forall|i: int, j: int| 0 <= i < j < 5 ==> #[trigger] idx[i] < #[trigger] idx[j])
}

/// The cards standing at the chosen positions.
pub open spec fn chosen(all: Seq<Card>, idx: Seq<int>) -> Seq<Card> {
    Seq::new(5, |i: int| all[idx[i]])
}

/// `sub` is one of the 5-card subsets of `all`, taken in order.
pub open spec fn is_choice5(sub: Seq<Card>, all: Seq<Card>) -> bool {
    exists|idx: Seq<int>| #[trigger] choice5_at(all, idx) && sub == chosen(all, idx)
}

/// `key` is the score of the best 5-card subset of `all`.
pub open spec fn is_best_key(key: HandKey, all: Seq<Card>) -> bool {
    &&& (exists|s: Seq<Card>| #[trigger] is_choice5(s, all) && key == score5(s))
    &&& (forall|s: Seq<Card>| #[trigger] is_choice5(s, all) ==> key.le(score5(s)))
}

/// The hole cards appended to the community cards.
pub open spec fn all_cards_of(private_cards: (Card, Card), public_cards: Seq<Card>) -> Seq<Card> {
    public_cards + seq![private_cards.0, private_cards.1]
}

/// A 5-card subset of well-formed cards is well formed.
proof fn lemma_choice_wf(sub: Seq<Card>, all: Seq<Card>)
    requires
        is_choice5(sub, all),
        all_cards_wf(all),
    ensures
        sub.len() == 5,
        all_cards_wf(sub),
{
    let idx = choose|idx: Seq<int>| #[trigger] choice5_at(all, idx) && sub == chosen(all, idx);
    assert forall|m: int| 0 <= m < sub.len() implies (#[trigger] sub[m]).wf() by {
        assert(sub[m] == all[idx[m]]);
    }
}

/// The best key over a hand is unique: any two keys that are both the
/// minimum over the same cards are equal.
pub proof fn lemma_best_key_unique(k1: HandKey, k2: HandKey, all: Seq<Card>)
    requires
        is_best_key(k1, all),
        is_best_key(k2, all),
    ensures
        k1 == k2,
{
    let s1 = choose|s: Seq<Card>| #[trigger] is_choice5(s, all) && k1 == score5(s);
    let s2 = choose|s: Seq<Card>| #[trigger] is_choice5(s, all) && k2 == score5(s);
    assert(k1.le(score5(s2)));
    assert(k2.le(score5(s1)));
}

/// The key of a holding, as a specification value: the no-hand key
/// when fewer than five cards are in sight, else the unique best key
/// over the five-card subsets.
pub open spec fn seat_key(hand: (Card, Card), public: Seq<Card>) -> HandKey {
    if all_cards_of(hand, public).len() < 5 {
        no_hand_key()
    } else {
        choose|k: HandKey| is_best_key(k, all_cards_of(hand, public))
    }
}

/// What `rank_hand` returns is exactly the holding's `seat_key`.
pub proof fn lemma_rank_hand_is_seat_key(key: HandKey, hand: (Card, Card), public: Seq<Card>)
    requires
        ({
            let all = all_cards_of(hand, public);
            if all.len() < 5 {
                key == no_hand_key()
            } else {
                is_best_key(key, all)
            }
        }),
    ensures
        key == seat_key(hand, public),
{
    let all = all_cards_of(hand, public);
    if all.len() >= 5 {
        assert(is_best_key(key, all));
        let k2 = choose|k: HandKey| is_best_key(k, all);
        lemma_best_key_unique(key, k2, all);
    }
}

/// Relies on itertools 0.15: `Itertools::combinations(5)` yields the
/// 5-element subsequences of the input by position (it "does not take
/// into account the equality of iterated values"): every yielded vector
/// holds the cards of five increasing positions, and every such choice
/// of positions is yielded.
#[verifier::external_body]
fn combinations5(cards: &Vec<Card>) -> (r: Vec<Vec<Card>>)
    ensures
        forall|k: int| 0 <= k < r@.len() ==> is_choice5((#[trigger] r@[k])@, cards@),
        forall|s: Seq<Card>|
            #[trigger] is_choice5(s, cards@) ==> exists|k: int| 0 <= k < r@.len() && r@[k]@ == s,
{
    cards.iter().cloned().combinations(5).collect()
}

/// Rank a holding: score every 5-card subset of the hole cards plus the
/// community cards and keep the minimum-sorting (best) key.  With fewer
/// than five cards in sight the fixed no-hand key comes back instead.
pub fn rank_hand(private_cards: (Card, Card), public_cards: &Vec<Card>) -> (key: HandKey)
    requires
        private_cards.0.wf(),
        private_cards.1.wf(),
        all_cards_wf(public_cards@),
        public_cards@.len() <= 5,
    ensures
        ({
            let all = all_cards_of(private_cards, public_cards@);
            if all.len() < 5 {
                key == no_hand_key()
            } else {
                is_best_key(key, all)
            }
        }),
{
    let mut cards: Vec<Card> = Vec::new();
    let mut i: usize = 0;
    while i < public_cards.len()
        invariant
            i <= public_cards@.len(),
            cards@ == public_cards@.take(i as int),
        decreases public_cards@.len() - i,
    {
        cards.push(public_cards[i]);
        assert(cards@ =~= public_cards@.take(i + 1));
        i = i + 1;
    }
    assert(public_cards@.take(public_cards@.len() as int) =~= public_cards@);
    cards.push(private_cards.0);
    cards.push(private_cards.1);
    let ghost all = all_cards_of(private_cards, public_cards@);
    assert(cards@ =~= all);
    assert(all_cards_wf(cards@));

    if cards.len() < 5 {
        return HandKey { category: 10, primary: 0, secondary: 0 };
    }

    let combos = combinations5(&cards);
    proof {
        let idx = seq![0int, 1int, 2int, 3int, 4int];
        assert(choice5_at(all, idx));
        assert(is_choice5(chosen(all, idx), all));
    }
    assert(combos@.len() > 0);
    proof {
        lemma_choice_wf(combos@[0]@, all);
    }
    let mut best = rank_card_combination(&combos[0]);
    assert(best == score5(combos@[0]@));
    let mut k: usize = 1;
    while k < combos.len()
        invariant
            1 <= k <= combos@.len(),
            all_cards_wf(all),
            cards@ == all,
            forall|k2: int| 0 <= k2 < combos@.len() ==> is_choice5((#[trigger] combos@[k2])@, all),
            forall|s: Seq<Card>|
                #[trigger] is_choice5(s, all) ==> exists|k2: int|
                    0 <= k2 < combos@.len() && combos@[k2]@ == s,
            exists|s: Seq<Card>| #[trigger] is_choice5(s, all) && best == score5(s),
            forall|k2: int| 0 <= k2 < k ==> best.le(score5((#[trigger] combos@[k2])@)),
        decreases combos@.len() - k,
    {
        proof {
            lemma_choice_wf(combos@[k as int]@, all);
        }
        let sc = rank_card_combination(&combos[k]);
        if sc.le_exec(&best) {
            best = sc;
        }
        k = k + 1;
    }
    assert forall|s: Seq<Card>| #[trigger] is_choice5(s, all) implies best.le(score5(s)) by {
        let k2 = choose|k2: int| 0 <= k2 < combos@.len() && combos@[k2]@ == s;
        assert(best.le(score5(combos@[k2]@)));
    }
    best
}

} // verus!
