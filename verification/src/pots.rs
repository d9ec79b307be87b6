//! Side-pot resolution at showdown.
//!
//! The distinct, ascending commitment levels of the seats cut the pot
//! into layers.  A layer between two adjacent levels is funded by every
//! seat that committed at least the upper level, and only seats that
//! are still in the hand and funded the layer may win it; the best
//! hand keys among them split it evenly, any odd remainder going to the
//! winner in the lowest-numbered seat.  A layer that no live seat can
//! win (every contributor above it folded) is returned to its
//! contributors.  Each seat's final reward is what it won less what it
//! committed, so the rewards of a hand always sum to zero.

use vstd::prelude::*;

use crate::card::Card;
use crate::eval::HandKey;
use crate::state::{
    sum_chips, sum_committed, sum_rewards, lemma_sums_update, lemma_sums_push,
    lemma_sum_chips_part, lemma_sum_chips_nonneg, PlayerState, State,
};

verus! {

/// One side pot: its chip amount and the seats allowed to win it.
/// The resolver works layer by layer over the commitment levels; a
/// `Pot` names one such layer for callers that inspect the split.
#[derive(Debug, Clone)]
pub struct Pot {
    pub amount: u64,
    pub eligible_players: Vec<usize>,
}

impl Pot {
    pub fn new() -> (r: Pot)
        ensures
            r.amount == 0,
            r.eligible_players@.len() == 0,
    {
        Pot { amount: 0, eligible_players: Vec::new() }
    }
}

/// The smaller of two integers.
pub open spec fn min_i(a: int, b: int) -> int {
    if a <= b {
        a
    } else {
        b
    }
}

/// Each seat's commitment capped at `cap`, summed: the chips the pot
/// layers up to level `cap` hold.
pub open spec fn sum_capped(ps: Seq<PlayerState>, cap: int) -> int
    decreases ps.len(),
{
    if ps.len() == 0 {
        0
    } else {
        sum_capped(ps.drop_last(), cap) + min_i(ps.last().pot_chips as int, cap)
    }
}

/// How many seats committed at least `l`.
pub open spec fn count_ge(ps: Seq<PlayerState>, l: int) -> int
    decreases ps.len(),
{
    if ps.len() == 0 {
        0
    } else {
        count_ge(ps.drop_last(), l) + if ps.last().pot_chips >= l {
            1int
        } else {
            0int
        }
    }
}

/// Capping at nothing yields nothing.
proof fn lemma_sum_capped_zero(ps: Seq<PlayerState>)
    ensures
        sum_capped(ps, 0) == 0,
    decreases ps.len(),
{
    if ps.len() > 0 {
        lemma_sum_capped_zero(ps.drop_last());
    }
}

/// A cap above every commitment collects the whole pot (with the
/// street bets already committed).
proof fn lemma_sum_capped_full(ps: Seq<PlayerState>, cap: int)
    requires
        forall|i: int|
            0 <= i < ps.len() ==> (#[trigger] ps[i]).pot_chips <= cap && ps[i].bet_chips == 0,
    ensures
        sum_capped(ps, cap) == sum_committed(ps),
    decreases ps.len(),
{
    if ps.len() > 0 {
        let prev = ps.drop_last();
        assert(forall|i: int| 0 <= i < prev.len() ==> prev[i] == ps[i]);
        lemma_sum_capped_full(prev, cap);
        assert(ps[ps.len() - 1] == ps.last());
    }
}

/// The capped sum sits between zero and the whole pot.
proof fn lemma_sum_capped_bounds(ps: Seq<PlayerState>, cap: int)
    requires
        cap >= 0,
    ensures
        0 <= sum_capped(ps, cap) <= sum_committed(ps),
    decreases ps.len(),
{
    if ps.len() > 0 {
        lemma_sum_capped_bounds(ps.drop_last(), cap);
    }
}

/// Raising the cap from one level to the next adds exactly one layer:
/// the gap times the number of seats that funded the upper level.
/// This needs the gap to be free of commitments: every seat sits at or
/// below the lower level, or at or above the upper one.
proof fn lemma_sum_capped_step(ps: Seq<PlayerState>, a: int, b: int)
    requires
        0 <= a <= b,
        forall|i: int|
            0 <= i < ps.len() ==> (#[trigger] ps[i]).pot_chips <= a || ps[i].pot_chips >= b,
    ensures
        sum_capped(ps, b) == sum_capped(ps, a) + (b - a) * count_ge(ps, b),
    decreases ps.len(),
{
    if ps.len() == 0 {
        assert((b - a) * 0 == 0) by (nonlinear_arith);
    } else {
        let prev = ps.drop_last();
        assert(forall|i: int| 0 <= i < prev.len() ==> prev[i] == ps[i]);
        lemma_sum_capped_step(prev, a, b);
        assert(ps[ps.len() - 1] == ps.last());
        let c = count_ge(prev, b);
        if ps.last().pot_chips >= b {
            assert((b - a) * (c + 1) == (b - a) * c + (b - a)) by (nonlinear_arith);
            assert(min_i(ps.last().pot_chips as int, b) == min_i(ps.last().pot_chips as int, a) + (
            b - a));
        } else {
            assert(min_i(ps.last().pot_chips as int, b) == min_i(ps.last().pot_chips as int, a));
        }
    }
}

/// With every term nonnegative, one reward is at most the sum.
proof fn lemma_reward_le_sum(ps: Seq<PlayerState>, i: int)
    requires
        0 <= i < ps.len(),
        forall|j: int| 0 <= j < ps.len() ==> (#[trigger] ps[j]).reward >= 0,
    ensures
        0 <= ps[i].reward <= sum_rewards(ps),
        sum_rewards(ps) >= 0,
    decreases ps.len(),
{
    let prev = ps.drop_last();
    assert(forall|j: int| 0 <= j < prev.len() ==> prev[j] == ps[j]);
    if i == ps.len() - 1 {
        lemma_rewards_nonneg(prev);
    } else {
        lemma_reward_le_sum(prev, i);
    }
}

/// A sum of zero rewards is zero.
proof fn lemma_rewards_zero(ps: Seq<PlayerState>)
    requires
        forall|j: int| 0 <= j < ps.len() ==> (#[trigger] ps[j]).reward == 0,
    ensures
        sum_rewards(ps) == 0,
    decreases ps.len(),
{
    if ps.len() > 0 {
        let prev = ps.drop_last();
        assert(forall|j: int| 0 <= j < prev.len() ==> prev[j] == ps[j]);
        lemma_rewards_zero(prev);
    }
}

/// A sum of nonnegative rewards is nonnegative.
proof fn lemma_rewards_nonneg(ps: Seq<PlayerState>)
    requires
        forall|j: int| 0 <= j < ps.len() ==> (#[trigger] ps[j]).reward >= 0,
    ensures
        sum_rewards(ps) >= 0,
    decreases ps.len(),
{
    if ps.len() > 0 {
        let prev = ps.drop_last();
        assert(forall|j: int| 0 <= j < prev.len() ==> prev[j] == ps[j]);
        lemma_rewards_nonneg(prev);
    }
}

/// The levels list is strictly ascending.
pub open spec fn sorted_strict(s: Seq<u64>) -> bool {
    forall|i: int, j: int| 0 <= i < j < s.len() ==> s[i] < s[j]
}

/// Insert a value into an ascending list of distinct values, keeping
/// it ascending and distinct; a value already present changes nothing.
fn insert_sorted_unique(levels: &mut Vec<u64>, v: u64)
    requires
        sorted_strict(old(levels)@),
    ensures
        sorted_strict(final(levels)@),
        forall|x: u64|
            final(levels)@.contains(x) <==> (old(levels)@.contains(x) || x == v),
{
    let ghost orig = levels@;
    let mut pos: usize = 0;
    while pos < levels.len() && levels[pos] < v
        invariant
            pos <= levels@.len(),
            levels@ == orig,
            forall|i: int| 0 <= i < pos ==> (#[trigger] levels@[i]) < v,
        decreases levels@.len() - pos,
    {
        pos = pos + 1;
    }
    if pos < levels.len() && levels[pos] == v {
        proof {
            assert(levels@.contains(v));
        }
        return ;
    }
    levels.insert(pos, v);
    proof {
        let now = levels@;
        // Everything before the insertion point sits below `v`, and
        // everything after sits above it, so the list stays ascending.
        assert forall|i: int, j: int| 0 <= i < j < now.len() implies now[i] < now[j] by {
            if i == pos && j > pos {
                assert(now[i] == v && now[j] == orig[j - 1]);
                assert(v <= orig[pos as int] && v != orig[pos as int]);
            } else if i < pos && j > pos {
                assert(now[i] == orig[i] && now[j] == orig[j - 1]);
                assert(pos < orig.len() ==> v <= orig[pos as int] && v != orig[pos as int]);
            }
        }
        // The values are the old ones plus `v`.
        assert forall|x: u64| now.contains(x) <==> (orig.contains(x) || x == v) by {
            if now.contains(x) {
                let k = choose|k: int| 0 <= k < now.len() && now[k] == x;
                if k < pos {
                    assert(orig[k] == x);
                } else if k > pos {
                    assert(orig[k - 1] == x);
                }
            }
            if orig.contains(x) {
                let k = choose|k: int| 0 <= k < orig.len() && orig[k] == x;
                if k < pos {
                    assert(now[k] == x);
                } else {
                    assert(now[k + 1] == x);
                }
            }
            if x == v {
                assert(now[pos as int] == x);
            }
        }
    }
}

// ------------------------------------------------------------------
// Per-seat forms and congruences.
// ------------------------------------------------------------------

/// `b` is `a` with at most the reward changed.
pub open spec fn same_except_reward(a: PlayerState, b: PlayerState) -> bool {
    b == (PlayerState { reward: b.reward, ..a })
}

/// `b` is `a` with at most the fields settlement ignores changed: the
/// reward, the street-action marker and the abstraction bucket.
pub open spec fn same_for_settlement(a: PlayerState, b: PlayerState) -> bool {
    b == (PlayerState {
        reward: b.reward,
        last_stage_action: b.last_stage_action,
        range_idx: b.range_idx,
        ..a
    })
}

/// `p1` is `p0` with the street bet folded into the commitment.
pub open spec fn committed_form(p0: PlayerState, p1: PlayerState) -> bool {
    &&& p1.bet_chips == 0
    &&& p1.pot_chips == p0.pot_chips + p0.bet_chips
    &&& (PlayerState { bet_chips: p0.bet_chips, pot_chips: p0.pot_chips, ..p1 }) == p0
}

/// Sums that read only the commitments agree on seat lists with equal
/// commitments.
proof fn lemma_pots_congruent(a: Seq<PlayerState>, b: Seq<PlayerState>, cap: int, l: int)
    requires
        a.len() == b.len(),
        forall|i: int| 0 <= i < a.len() ==> (#[trigger] a[i]).pot_chips == b[i].pot_chips,
    ensures
        sum_capped(a, cap) == sum_capped(b, cap),
        count_ge(a, l) == count_ge(b, l),
    decreases a.len(),
{
    if a.len() > 0 {
        let pa = a.drop_last();
        let pb = b.drop_last();
        assert(forall|i: int| 0 <= i < pa.len() ==> pa[i] == a[i] && pb[i] == b[i]);
        lemma_pots_congruent(pa, pb, cap, l);
        assert(a[a.len() - 1] == a.last() && b[b.len() - 1] == b.last());
    }
}

// ------------------------------------------------------------------
// Winners of one layer.
// ------------------------------------------------------------------

/// The seat is still in the hand, funded this layer, and holds the
/// given key.
pub open spec fn winner_at(p: PlayerState, public: Seq<Card>, l: int, best: HandKey) -> bool {
    p.active && p.pot_chips >= l && crate::eval::seat_key(p.hand, public) == best
}

/// How many seats win the layer.
pub open spec fn count_winners(ps: Seq<PlayerState>, public: Seq<Card>, l: int, best: HandKey)
    -> int
    decreases ps.len(),
{
    if ps.len() == 0 {
        0
    } else {
        count_winners(ps.drop_last(), public, l, best) + if winner_at(ps.last(), public, l, best) {
            1int
        } else {
            0int
        }
    }
}

proof fn lemma_count_ge_snoc(ps: Seq<PlayerState>, p: PlayerState, l: int)
    ensures
        count_ge(ps.push(p), l) == count_ge(ps, l) + if p.pot_chips >= l {
            1int
        } else {
            0int
        },
{
    assert(ps.push(p).drop_last() =~= ps);
    assert(ps.push(p).last() == p);
}

proof fn lemma_count_winners_snoc(
    ps: Seq<PlayerState>,
    p: PlayerState,
    public: Seq<Card>,
    l: int,
    best: HandKey,
)
    ensures
        count_winners(ps.push(p), public, l, best) == count_winners(ps, public, l, best) + if
            winner_at(p, public, l, best) {
            1int
        } else {
            0int
        },
{
    assert(ps.push(p).drop_last() =~= ps);
    assert(ps.push(p).last() == p);
}

/// A witness seat makes the winner count positive; it never goes
/// negative and a prefix never counts more than the whole.
proof fn lemma_count_winners_bounds(
    ps: Seq<PlayerState>,
    public: Seq<Card>,
    l: int,
    best: HandKey,
)
    ensures
        0 <= count_winners(ps, public, l, best) <= ps.len(),
        forall|j: int|
            0 <= j < ps.len() && winner_at(#[trigger] ps[j], public, l, best) ==> count_winners(
                ps,
                public,
                l,
                best,
            ) >= 1,
    decreases ps.len(),
{
    if ps.len() > 0 {
        let prev = ps.drop_last();
        assert(forall|i: int| 0 <= i < prev.len() ==> prev[i] == ps[i]);
        lemma_count_winners_bounds(prev, public, l, best);
        assert(ps[ps.len() - 1] == ps.last());
    }
}

/// A positive prefix count names an earlier winner.
proof fn lemma_count_winners_zero_converse(
    ps: Seq<PlayerState>,
    public: Seq<Card>,
    l: int,
    best: HandKey,
    i: int,
)
    requires
        0 <= i <= ps.len(),
        count_winners(ps.take(i), public, l, best) > 0,
    ensures
        exists|j2: int| 0 <= j2 < i && winner_at(#[trigger] ps[j2], public, l, best),
    decreases i,
{
    if i > 0 {
        assert(ps.take(i).drop_last() =~= ps.take(i - 1));
        assert(ps.take(i).last() == ps[i - 1]);
        if winner_at(ps[i - 1], public, l, best) {
        } else {
            lemma_count_winners_zero_converse(ps, public, l, best, i - 1);
        }
    }
}

/// A full count dominates any prefix count.
proof fn lemma_count_winners_prefix(
    ps: Seq<PlayerState>,
    public: Seq<Card>,
    l: int,
    best: HandKey,
    i: int,
)
    requires
        0 <= i <= ps.len(),
    ensures
        count_winners(ps.take(i), public, l, best) <= count_winners(ps, public, l, best),
    decreases ps.len() - i,
{
    if i == ps.len() {
        assert(ps.take(i) =~= ps);
    } else {
        lemma_count_winners_prefix(ps, public, l, best, i + 1);
        assert(ps.take(i + 1) =~= ps.take(i).push(ps[i]));
        lemma_count_winners_snoc(ps.take(i), ps[i], public, l, best);
        lemma_count_winners_bounds(ps.take(i), public, l, best);
    }
}


// ------------------------------------------------------------------
// The award of one layer, as a specification value.
// ------------------------------------------------------------------

/// Some live seat funded the layer.
pub open spec fn exists_eligible(ps: Seq<PlayerState>, l: int) -> bool {
    exists|i: int| 0 <= i < ps.len() && (#[trigger] ps[i]).active && ps[i].pot_chips >= l
}

/// `k` is the best key any live seat funding the layer holds.
pub open spec fn is_layer_best(ps: Seq<PlayerState>, public: Seq<Card>, l: int, k: HandKey)
    -> bool {
    &&& (exists|i: int|
        0 <= i < ps.len() && (#[trigger] ps[i]).active && ps[i].pot_chips >= l
            && crate::eval::seat_key(ps[i].hand, public) == k)
    &&& (forall|i: int|
        0 <= i < ps.len() && (#[trigger] ps[i]).active && ps[i].pot_chips >= l ==> k.le(
            crate::eval::seat_key(ps[i].hand, public),
        ))
}

/// The best key of a layer is unique.
pub proof fn lemma_layer_best_unique(
    ps: Seq<PlayerState>,
    public: Seq<Card>,
    l: int,
    k1: HandKey,
    k2: HandKey,
)
    requires
        is_layer_best(ps, public, l, k1),
        is_layer_best(ps, public, l, k2),
    ensures
        k1 == k2,
{
    let i1 = choose|i: int|
        0 <= i < ps.len() && (#[trigger] ps[i]).active && ps[i].pot_chips >= l
            && crate::eval::seat_key(ps[i].hand, public) == k1;
    let i2 = choose|i: int|
        0 <= i < ps.len() && (#[trigger] ps[i]).active && ps[i].pot_chips >= l
            && crate::eval::seat_key(ps[i].hand, public) == k2;
    assert(k1.le(crate::eval::seat_key(ps[i2].hand, public)));
    assert(k2.le(crate::eval::seat_key(ps[i1].hand, public)));
}

/// The best key of a layer.
pub open spec fn layer_best(ps: Seq<PlayerState>, public: Seq<Card>, l: int) -> HandKey {
    choose|k: HandKey| is_layer_best(ps, public, l, k)
}

/// `j` is the winning seat with the lowest number.
pub open spec fn is_first_winner(
    ps: Seq<PlayerState>,
    public: Seq<Card>,
    l: int,
    best: HandKey,
    j: int,
) -> bool {
    &&& winner_at(ps[j], public, l, best)
    &&& (forall|j2: int| 0 <= j2 < j ==> !winner_at(#[trigger] ps[j2], public, l, best))
}

/// What the layer between `prev` and `l` pays seat `j`: with no live
/// funded seat, each contributor gets its own slice back; otherwise
/// the layer splits evenly among the seats holding the best key, the
/// division remainder going to the winner in the lowest seat.
pub open spec fn layer_gain(
    ps: Seq<PlayerState>,
    public: Seq<Card>,
    prev: int,
    l: int,
    j: int,
) -> int {
    let slice = l - prev;
    let layer = slice * count_ge(ps, l);
    if !exists_eligible(ps, l) {
        if ps[j].pot_chips >= l {
            slice
        } else {
            0
        }
    } else {
        let best = layer_best(ps, public, l);
        let w = count_winners(ps, public, l, best);
        if winner_at(ps[j], public, l, best) {
            layer / w + if is_first_winner(ps, public, l, best, j) {
                layer % w
            } else {
                0
            }
        } else {
            0
        }
    }
}


/// The seats with their street bets committed and rewards cleared:
/// the configuration the layers are computed over.
pub open spec fn committed_seats(ps: Seq<PlayerState>) -> Seq<PlayerState> {
    Seq::new(
        ps.len(),
        |i: int|
            PlayerState {
                bet_chips: 0,
                pot_chips: (ps[i].pot_chips + ps[i].bet_chips) as u64,
                reward: 0,
                ..ps[i]
            },
    )
}

/// Seat `j`'s winnings over the layers up to the `li`-th level.
pub open spec fn winnings_upto(
    ps: Seq<PlayerState>,
    public: Seq<Card>,
    levels: Seq<u64>,
    li: int,
    j: int,
) -> int
    decreases li,
{
    if li <= 0 {
        0
    } else {
        let prev: int = if li == 1 {
            0
        } else {
            levels[li - 2] as int
        };
        winnings_upto(ps, public, levels, li - 1, j) + layer_gain(
            ps,
            public,
            prev,
            levels[li - 1] as int,
            j,
        )
    }
}

/// `k` is the best key among the live funded seats below index `i`.
pub open spec fn is_layer_best_upto(
    ps: Seq<PlayerState>,
    public: Seq<Card>,
    l: int,
    k: HandKey,
    i: int,
) -> bool {
    &&& (exists|j: int|
        0 <= j < i && (#[trigger] ps[j]).active && ps[j].pot_chips >= l && crate::eval::seat_key(
            ps[j].hand,
            public,
        ) == k)
    &&& (forall|j: int|
        0 <= j < i && (#[trigger] ps[j]).active && ps[j].pot_chips >= l ==> k.le(
            crate::eval::seat_key(ps[j].hand, public),
        ))
}

/// Among any set of live funded seats a best key exists.
proof fn lemma_layer_best_exists(ps: Seq<PlayerState>, public: Seq<Card>, l: int, i: int)
    requires
        0 <= i <= ps.len(),
        exists|j: int| 0 <= j < i && (#[trigger] ps[j]).active && ps[j].pot_chips >= l,
    ensures
        exists|k: HandKey| #[trigger] is_layer_best_upto(ps, public, l, k, i),
    decreases i,
{
    let je = choose|j: int| 0 <= j < i && (#[trigger] ps[j]).active && ps[j].pot_chips >= l;
    let klast = crate::eval::seat_key(ps[i - 1].hand, public);
    if exists|j: int| 0 <= j < i - 1 && (#[trigger] ps[j]).active && ps[j].pot_chips >= l {
        lemma_layer_best_exists(ps, public, l, i - 1);
        let kp = choose|k: HandKey| #[trigger] is_layer_best_upto(ps, public, l, k, i - 1);
        if ps[i - 1].active && ps[i - 1].pot_chips >= l && !kp.le(klast) {
            assert(is_layer_best_upto(ps, public, l, klast, i));
        } else {
            assert(is_layer_best_upto(ps, public, l, kp, i));
        }
    } else {
        assert(je == i - 1);
        assert(is_layer_best_upto(ps, public, l, klast, i));
    }
}

/// Counting winners reads nothing but the chips, liveness and cards.
proof fn lemma_count_winners_congruent(
    a: Seq<PlayerState>,
    b: Seq<PlayerState>,
    public: Seq<Card>,
    l: int,
    best: HandKey,
)
    requires
        a.len() == b.len(),
        forall|i: int| 0 <= i < a.len() ==> same_for_settlement(#[trigger] a[i], b[i]),
    ensures
        count_winners(a, public, l, best) == count_winners(b, public, l, best),
    decreases a.len(),
{
    if a.len() > 0 {
        let pa = a.drop_last();
        let pb = b.drop_last();
        assert(forall|i: int| 0 <= i < pa.len() ==> pa[i] == a[i] && pb[i] == b[i]);
        lemma_count_winners_congruent(pa, pb, public, l, best);
        assert(a[a.len() - 1] == a.last() && b[b.len() - 1] == b.last());
    }
}

/// The award of a layer reads nothing but the chips, liveness and
/// cards: seats that agree on everything but their rewards get the
/// same award.
proof fn lemma_layer_gain_congruent(
    a: Seq<PlayerState>,
    b: Seq<PlayerState>,
    public: Seq<Card>,
    prev: int,
    l: int,
    j: int,
)
    requires
        a.len() == b.len(),
        0 <= j < a.len(),
        forall|i: int| 0 <= i < a.len() ==> same_for_settlement(#[trigger] a[i], b[i]),
    ensures
        layer_gain(a, public, prev, l, j) == layer_gain(b, public, prev, l, j),
{
    lemma_pots_congruent(a, b, l, l);
    assert forall|i: int|
        0 <= i < a.len() implies (#[trigger] a[i]).active == b[i].active && a[i].pot_chips
        == b[i].pot_chips && a[i].hand == b[i].hand by {}
    assert(exists_eligible(a, l) == exists_eligible(b, l)) by {
        if exists_eligible(a, l) {
            let w = choose|i: int|
                0 <= i < a.len() && (#[trigger] a[i]).active && a[i].pot_chips >= l;
            assert(b[w].active && b[w].pot_chips >= l);
        }
        if exists_eligible(b, l) {
            let w = choose|i: int|
                0 <= i < b.len() && (#[trigger] b[i]).active && b[i].pot_chips >= l;
            assert(a[w].active && a[w].pot_chips >= l);
        }
    }
    if exists_eligible(a, l) {
        assert forall|k: HandKey|
            #[trigger] is_layer_best(a, public, l, k) == is_layer_best(b, public, l, k) by {
            if is_layer_best(a, public, l, k) {
                let w = choose|i: int|
                    0 <= i < a.len() && (#[trigger] a[i]).active && a[i].pot_chips >= l
                        && crate::eval::seat_key(a[i].hand, public) == k;
                assert(b[w].active && b[w].pot_chips >= l && crate::eval::seat_key(
                    b[w].hand,
                    public,
                ) == k);
                assert forall|i: int|
                    0 <= i < b.len() && (#[trigger] b[i]).active && b[i].pot_chips >= l implies
                    k.le(crate::eval::seat_key(b[i].hand, public)) by {
                    assert(a[i].active && a[i].pot_chips >= l && a[i].hand == b[i].hand);
                }
            }
            if is_layer_best(b, public, l, k) {
                let w = choose|i: int|
                    0 <= i < b.len() && (#[trigger] b[i]).active && b[i].pot_chips >= l
                        && crate::eval::seat_key(b[i].hand, public) == k;
                assert(a[w].active && a[w].pot_chips >= l && crate::eval::seat_key(
                    a[w].hand,
                    public,
                ) == k);
                assert forall|i: int|
                    0 <= i < a.len() && (#[trigger] a[i]).active && a[i].pot_chips >= l implies
                    k.le(crate::eval::seat_key(a[i].hand, public)) by {
                    assert(b[i].active && b[i].pot_chips >= l && a[i].hand == b[i].hand);
                }
            }
        }
        // Both sides name the same unique best key.
        lemma_layer_best_exists(a, public, l, a.len() as int);
        let ke = choose|k: HandKey| #[trigger] is_layer_best_upto(a, public, l, k, a.len() as int);
        assert(is_layer_best(a, public, l, ke));
        let ka = layer_best(a, public, l);
        assert(is_layer_best(a, public, l, ka));
        assert(is_layer_best(b, public, l, ka));
        let kb = layer_best(b, public, l);
        assert(is_layer_best(b, public, l, kb));
        lemma_layer_best_unique(b, public, l, ka, kb);
        lemma_count_winners_congruent(a, b, public, l, ka);
        assert forall|j2: int|
            0 <= j2 < a.len() implies winner_at(#[trigger] a[j2], public, l, ka) == winner_at(
            b[j2],
            public,
            l,
            ka,
        ) by {
            assert(a[j2].active == b[j2].active && a[j2].pot_chips == b[j2].pot_chips && a[
            j2].hand == b[j2].hand);
        }
        assert(is_first_winner(a, public, l, ka, j) == is_first_winner(b, public, l, kb, j)) by {
            if is_first_winner(a, public, l, ka, j) {
                assert(winner_at(b[j], public, l, ka));
                assert forall|j2: int| 0 <= j2 < j implies !winner_at(
                    #[trigger] b[j2],
                    public,
                    l,
                    ka,
                ) by {
                    assert(!winner_at(a[j2], public, l, ka));
                }
            }
            if is_first_winner(b, public, l, kb, j) {
                assert(winner_at(a[j], public, l, ka));
                assert forall|j2: int| 0 <= j2 < j implies !winner_at(
                    #[trigger] a[j2],
                    public,
                    l,
                    ka,
                ) by {
                    assert(!winner_at(b[j2], public, l, ka));
                }
            }
        }
    }
}

/// The rewards of `after` settle the committed seats `ps`: the
/// ascending list of the distinct positive commitments carries the
/// layered awards, and each seat's reward is its winnings less its
/// commitment.
pub open spec fn settles(ps: Seq<PlayerState>, public: Seq<Card>, after: Seq<PlayerState>) -> bool {
    exists|levels: Seq<u64>|
        {
            &&& #[trigger] sorted_strict(levels)
            &&& (forall|x: u64|
                levels.contains(x) <==> (x > 0 && exists|j: int|
                    0 <= j < ps.len() && (#[trigger] ps[j]).pot_chips == x))
            &&& (forall|j: int|
                0 <= j < ps.len() ==> (#[trigger] after[j]).reward == winnings_upto(
                    ps,
                    public,
                    levels,
                    levels.len() as int,
                    j,
                ) - ps[j].pot_chips)
        }
}

/// A seat's winnings read nothing but the chips, liveness and cards.
proof fn lemma_winnings_congruent(
    a: Seq<PlayerState>,
    b: Seq<PlayerState>,
    public: Seq<Card>,
    levels: Seq<u64>,
    li: int,
    j: int,
)
    requires
        a.len() == b.len(),
        0 <= j < a.len(),
        forall|i: int| 0 <= i < a.len() ==> same_for_settlement(#[trigger] a[i], b[i]),
    ensures
        winnings_upto(a, public, levels, li, j) == winnings_upto(b, public, levels, li, j),
    decreases li,
{
    if li > 0 {
        lemma_winnings_congruent(a, b, public, levels, li - 1, j);
        let prev: int = if li == 1 {
            0
        } else {
            levels[li - 2] as int
        };
        lemma_layer_gain_congruent(a, b, public, prev, levels[li - 1] as int, j);
    }
}

/// Settlement carries over to committed seats that differ only in the
/// fields it ignores.
pub proof fn lemma_settles_transfer(
    ps1: Seq<PlayerState>,
    ps2: Seq<PlayerState>,
    public: Seq<Card>,
    after: Seq<PlayerState>,
)
    requires
        settles(ps1, public, after),
        ps1.len() == ps2.len(),
        forall|i: int| 0 <= i < ps1.len() ==> same_for_settlement(#[trigger] ps1[i], ps2[i]),
    ensures
        settles(ps2, public, after),
{
    let levels = choose|levels: Seq<u64>|
        {
            &&& #[trigger] sorted_strict(levels)
            &&& (forall|x: u64|
                levels.contains(x) <==> (x > 0 && exists|j: int|
                    0 <= j < ps1.len() && (#[trigger] ps1[j]).pot_chips == x))
            &&& (forall|j: int|
                0 <= j < ps1.len() ==> (#[trigger] after[j]).reward == winnings_upto(
                    ps1,
                    public,
                    levels,
                    levels.len() as int,
                    j,
                ) - ps1[j].pot_chips)
        };
    assert forall|x: u64|
        levels.contains(x) <==> (x > 0 && exists|j: int|
            0 <= j < ps2.len() && (#[trigger] ps2[j]).pot_chips == x) by {
        if x > 0 && exists|j: int| 0 <= j < ps2.len() && (#[trigger] ps2[j]).pot_chips == x {
            let j = choose|j: int| 0 <= j < ps2.len() && (#[trigger] ps2[j]).pot_chips == x;
            assert(ps1[j].pot_chips == x);
        }
        if levels.contains(x) {
            let j = choose|j: int| 0 <= j < ps1.len() && (#[trigger] ps1[j]).pot_chips == x;
            assert(ps2[j].pot_chips == x);
        }
    }
    assert forall|j: int|
        0 <= j < ps2.len() implies (#[trigger] after[j]).reward == winnings_upto(
        ps2,
        public,
        levels,
        levels.len() as int,
        j,
    ) - ps2[j].pot_chips by {
        lemma_winnings_congruent(ps1, ps2, public, levels, levels.len() as int, j);
        assert(ps1[j].pot_chips == ps2[j].pot_chips);
    }
}

/// With no winner in sight the winner count is zero.
proof fn lemma_count_winners_none(ps: Seq<PlayerState>, public: Seq<Card>, l: int, best: HandKey)
    requires
        forall|j: int| 0 <= j < ps.len() ==> !winner_at(#[trigger] ps[j], public, l, best),
    ensures
        count_winners(ps, public, l, best) == 0,
    decreases ps.len(),
{
    if ps.len() > 0 {
        let prev = ps.drop_last();
        assert(forall|j: int| 0 <= j < prev.len() ==> prev[j] == ps[j]);
        lemma_count_winners_none(prev, public, l, best);
        assert(ps[ps.len() - 1] == ps.last());
    }
}

/// With exactly one winning seat the winner count is one.
proof fn lemma_count_winners_single(
    ps: Seq<PlayerState>,
    public: Seq<Card>,
    l: int,
    best: HandKey,
    w: int,
)
    requires
        0 <= w < ps.len(),
        winner_at(ps[w], public, l, best),
        forall|j: int| 0 <= j < ps.len() && j != w ==> !winner_at(#[trigger] ps[j], public, l, best),
    ensures
        count_winners(ps, public, l, best) == 1,
    decreases ps.len(),
{
    let prev = ps.drop_last();
    assert(forall|j: int| 0 <= j < prev.len() ==> prev[j] == ps[j]);
    assert(ps[ps.len() - 1] == ps.last());
    if w == ps.len() - 1 {
        lemma_count_winners_none(prev, public, l, best);
    } else {
        lemma_count_winners_single(prev, public, l, best, w);
    }
}

/// The winnings of a hand whose one live seat matched every
/// commitment: the survivor collects every layer whole, everyone else
/// collects nothing.
proof fn lemma_survivor_winnings(
    ps: Seq<PlayerState>,
    public: Seq<Card>,
    levels: Seq<u64>,
    w: int,
    li: int,
)
    requires
        sorted_strict(levels),
        forall|x: u64|
            levels.contains(x) <==> (x > 0 && exists|j: int|
                0 <= j < ps.len() && (#[trigger] ps[j]).pot_chips == x),
        0 <= w < ps.len(),
        ps[w].active,
        forall|i: int| 0 <= i < ps.len() && i != w ==> !(#[trigger] ps[i]).active,
        forall|i: int| 0 <= i < ps.len() ==> (#[trigger] ps[i]).pot_chips <= ps[w].pot_chips,
        0 <= li <= levels.len(),
    ensures
        winnings_upto(ps, public, levels, li, w) == sum_capped(
            ps,
            if li == 0 {
                0int
            } else {
                levels[li - 1] as int
            },
        ),
        forall|i: int|
            0 <= i < ps.len() && i != w ==> #[trigger] winnings_upto(ps, public, levels, li, i)
                == 0,
    decreases li,
{
    if li == 0 {
        lemma_sum_capped_zero(ps);
    } else {
        lemma_survivor_winnings(ps, public, levels, w, li - 1);
        let l = levels[li - 1] as int;
        let prev: int = if li == 1 {
            0
        } else {
            levels[li - 2] as int
        };
        assert(levels.contains(levels[li - 1]));
        assert(l > 0);
        assert(prev < l);

        // The survivor funds and can win this layer, and nobody else
        // is alive to contest it.
        let kw = crate::eval::seat_key(ps[w].hand, public);
        assert(exists_eligible(ps, l)) by {
            let j = choose|j: int| 0 <= j < ps.len() && (#[trigger] ps[j]).pot_chips == levels[li
                - 1];
            assert(ps[w].pot_chips >= ps[j].pot_chips);
            assert(ps[w].active && ps[w].pot_chips >= l);
        }
        assert(is_layer_best(ps, public, l, kw)) by {
            assert(ps[w].active && ps[w].pot_chips >= l && crate::eval::seat_key(
                ps[w].hand,
                public,
            ) == kw);
        }
        let kb = layer_best(ps, public, l);
        assert(is_layer_best(ps, public, l, kb));
        lemma_layer_best_unique(ps, public, l, kw, kb);
        assert(winner_at(ps[w], public, l, kb));
        assert(forall|j: int|
            0 <= j < ps.len() && j != w ==> !winner_at(#[trigger] ps[j], public, l, kb));
        lemma_count_winners_single(ps, public, l, kb, w);
        assert(is_first_winner(ps, public, l, kb, w));

        // The whole layer goes to the survivor in one piece.
        let slice = l - prev;
        let layer = slice * count_ge(ps, l);
        vstd::arithmetic::div_mod::lemma_fundamental_div_mod(layer, 1);
        vstd::arithmetic::div_mod::lemma_mod_division_less_than_divisor(layer, 1);
        assert(layer_gain(ps, public, prev, l, w) == layer);

        // And the layer is exactly the next ring of the capped sum.
        assert forall|i: int|
            0 <= i < ps.len() implies ((#[trigger] ps[i]).pot_chips <= prev || ps[i].pot_chips
            >= l) by {
            let pot = ps[i].pot_chips;
            if pot > 0 {
                assert(levels.contains(pot));
                let k = choose|k: int| 0 <= k < levels.len() && levels[k] == pot;
                if k < li - 1 {
                    if k < li - 2 {
                        assert(levels[k] < levels[li - 2]);
                    }
                    assert(pot <= prev);
                } else {
                    if k > li - 1 {
                        assert(levels[li - 1] < levels[k]);
                    }
                    assert(pot >= l);
                }
            }
        }
        lemma_sum_capped_step(ps, prev, l);

        assert forall|i: int|
            0 <= i < ps.len() && i != w implies #[trigger] winnings_upto(ps, public, levels, li, i)
            == 0 by {
            assert(!winner_at(ps[i], public, l, kb));
            assert(layer_gain(ps, public, prev, l, i) == 0);
            assert(winnings_upto(ps, public, levels, li - 1, i) == 0);
            assert(winnings_upto(ps, public, levels, li, i) == winnings_upto(
                ps,
                public,
                levels,
                li - 1,
                i,
            ) + layer_gain(ps, public, prev, l, i));
        }
    }
}

/// Law: a hand that ends with a single live seat pays that seat the
/// whole pot without any hand comparison.  Over settled committed
/// seats (street bets already folded into the commitments) whose one
/// live seat matched every other commitment, the survivor's reward is
/// exactly what everyone else put in, and every other seat loses
/// exactly its own commitment.
pub proof fn lemma_sole_survivor_takes_the_pot(
    ps: Seq<PlayerState>,
    public: Seq<Card>,
    after: Seq<PlayerState>,
    w: int,
)
    requires
        settles(ps, public, after),
        after.len() == ps.len(),
        0 <= w < ps.len(),
        ps[w].active,
        forall|i: int| 0 <= i < ps.len() && i != w ==> !(#[trigger] ps[i]).active,
        forall|i: int| 0 <= i < ps.len() ==> (#[trigger] ps[i]).pot_chips <= ps[w].pot_chips,
        forall|i: int| 0 <= i < ps.len() ==> (#[trigger] ps[i]).bet_chips == 0,
    ensures
        after[w].reward == sum_committed(ps) - ps[w].pot_chips,
        forall|i: int|
            0 <= i < ps.len() && i != w ==> (#[trigger] after[i]).reward == 0 - (
            ps[i].pot_chips as int),
{
    let levels = choose|levels: Seq<u64>|
        {
            &&& #[trigger] sorted_strict(levels)
            &&& (forall|x: u64|
                levels.contains(x) <==> (x > 0 && exists|j: int|
                    0 <= j < ps.len() && (#[trigger] ps[j]).pot_chips == x))
            &&& (forall|j: int|
                0 <= j < ps.len() ==> (#[trigger] after[j]).reward == winnings_upto(
                    ps,
                    public,
                    levels,
                    levels.len() as int,
                    j,
                ) - ps[j].pot_chips)
        };
    lemma_survivor_winnings(ps, public, levels, w, levels.len() as int);
    let top: int = if levels.len() == 0 {
        0int
    } else {
        levels[levels.len() - 1] as int
    };
    assert forall|i: int| 0 <= i < ps.len() implies (#[trigger] ps[i]).pot_chips <= top by {
        let pot = ps[i].pot_chips;
        if pot > 0 {
            assert(levels.contains(pot));
            let k = choose|k: int| 0 <= k < levels.len() && levels[k] == pot;
            if k < levels.len() - 1 {
                assert(levels[k] < levels[levels.len() - 1]);
            }
        }
    }
    lemma_sum_capped_full(ps, top);
}

// ------------------------------------------------------------------
// The phases of resolution.
// ------------------------------------------------------------------

/// Move every seat's street bet into its commitment.
#[verifier::loop_isolation(false)]
pub fn commit_bets(players: &mut Vec<PlayerState>)
    requires
        sum_chips(old(players)@) < 0x8000_0000_0000_0000,
    ensures
        final(players)@.len() == old(players)@.len(),
        forall|i: int|
            0 <= i < old(players)@.len() ==> committed_form(
                old(players)@[i],
                #[trigger] final(players)@[i],
            ),
        sum_chips(final(players)@) == sum_chips(old(players)@),
        sum_committed(final(players)@) == sum_committed(old(players)@),
{
    let ghost orig = old(players)@;
    let n = players.len();
    let mut i: usize = 0;
    while i < n
        invariant
            players@.len() == n,
            i <= n,
            forall|j: int| i <= j < n ==> #[trigger] players@[j] == orig[j],
            forall|j: int| 0 <= j < i ==> committed_form(orig[j], #[trigger] players@[j]),
            sum_chips(players@) == sum_chips(orig),
            sum_committed(players@) == sum_committed(orig),
        decreases n - i,
    {
        proof {
            lemma_sum_chips_part(players@, i as int);
        }
        let mut p = players[i];
        p.pot_chips = p.pot_chips + p.bet_chips;
        p.bet_chips = 0;
        proof {
            lemma_sums_update(players@, i as int, p);
        }
        players[i] = p;
        i = i + 1;
    }
}

/// Zero every seat's reward.
#[verifier::loop_isolation(false)]
fn clear_rewards(players: &mut Vec<PlayerState>)
    ensures
        final(players)@.len() == old(players)@.len(),
        forall|i: int|
            0 <= i < old(players)@.len() ==> same_except_reward(
                old(players)@[i],
                #[trigger] final(players)@[i],
            ) && final(players)@[i].reward == 0,
        sum_chips(final(players)@) == sum_chips(old(players)@),
        sum_committed(final(players)@) == sum_committed(old(players)@),
{
    let ghost orig = old(players)@;
    let n = players.len();
    let mut i: usize = 0;
    while i < n
        invariant
            players@.len() == n,
            i <= n,
            forall|j: int| i <= j < n ==> #[trigger] players@[j] == orig[j],
            forall|j: int|
                0 <= j < i ==> same_except_reward(orig[j], #[trigger] players@[j])
                    && players@[j].reward == 0,
            sum_chips(players@) == sum_chips(orig),
            sum_committed(players@) == sum_committed(orig),
        decreases n - i,
    {
        let mut p = players[i];
        p.reward = 0;
        proof {
            lemma_sums_update(players@, i as int, p);
        }
        players[i] = p;
        i = i + 1;
    }
}

/// The distinct, ascending commitment levels of the funded seats.
fn collect_levels(players: &Vec<PlayerState>) -> (levels: Vec<u64>)
    ensures
        sorted_strict(levels@),
        forall|x: u64|
            #[trigger] levels@.contains(x) <==> (x > 0 && exists|j: int|
                0 <= j < players@.len() && (#[trigger] players@[j]).pot_chips == x),
{
    let mut levels: Vec<u64> = Vec::new();
    let n = players.len();
    let mut i: usize = 0;
    while i < n
        invariant
            i <= n,
            n == players@.len(),
            sorted_strict(levels@),
            forall|x: u64|
                #[trigger] levels@.contains(x) <==> (x > 0 && exists|j: int|
                    0 <= j < i && (#[trigger] players@[j]).pot_chips == x),
        decreases n - i,
    {
        let v = players[i].pot_chips;
        if v > 0 {
            insert_sorted_unique(&mut levels, v);
        }
        i = i + 1;
    }
    levels
}

/// Award one layer: the gap `prev..l` funded by every seat committed to
/// at least `l`.  The best keys among the live, funded seats split it
/// evenly, the odd remainder going to the lowest such seat; with no
/// live funded seat the layer returns to its contributors.
#[verifier::loop_isolation(false)]
#[verifier::rlimit(60)]
fn resolve_layer(players: &mut Vec<PlayerState>, public: &Vec<Card>, prev: u64, l: u64)
    requires
        prev < l,
        crate::card::all_cards_wf(public@),
        public@.len() <= 5,
        forall|i: int|
            0 <= i < old(players)@.len() ==> (#[trigger] old(players)@[i]).hand.0.wf() && old(players)@[i].hand.1.wf(),
        forall|i: int|
            0 <= i < old(players)@.len() ==> (#[trigger] old(players)@[i]).pot_chips <= prev || old(players)@[i].pot_chips >= l,
        forall|i: int| 0 <= i < old(players)@.len() ==> (#[trigger] old(players)@[i]).reward >= 0,
        sum_rewards(old(players)@) == sum_capped(old(players)@, prev as int),
        sum_chips(old(players)@) < 0x8000_0000_0000_0000,
    ensures
        final(players)@.len() == old(players)@.len(),
        forall|i: int|
            0 <= i < old(players)@.len() ==> same_except_reward(
                old(players)@[i],
                #[trigger] final(players)@[i],
            ),
        forall|i: int|
            0 <= i < old(players)@.len() ==> (#[trigger] final(players)@[i]).reward >= old(players)@[i].reward,
        forall|i: int|
            0 <= i < old(players)@.len() && (#[trigger] old(players)@[i]).pot_chips < l ==> final(players)@[i] == old(players)@[i],
        forall|j: int|
            0 <= j < old(players)@.len() ==> (#[trigger] final(players)@[j]).reward == old(
                players,
            )@[j].reward + layer_gain(old(players)@, public@, prev as int, l as int, j),
        sum_rewards(final(players)@) == sum_capped(final(players)@, l as int),
        sum_chips(final(players)@) == sum_chips(old(players)@),
        sum_committed(final(players)@) == sum_committed(old(players)@),
{
    let ghost orig = old(players)@;
    let n = players.len();

    // The layer's size: the gap times the seats that funded it.
    let mut c: usize = 0;
    let mut i: usize = 0;
    while i < n
        invariant
            i <= n,
            players@ == orig,
            n == orig.len(),
            c as int == count_ge(orig.take(i as int), l as int),
            c <= i,
        decreases n - i,
    {
        proof {
            assert(orig.take(i + 1) =~= orig.take(i as int).push(orig[i as int]));
            lemma_count_ge_snoc(orig.take(i as int), orig[i as int], l as int);
        }
        if players[i].pot_chips >= l {
            c = c + 1;
        }
        i = i + 1;
    }
    assert(orig.take(n as int) =~= orig);
    let slice = l - prev;
    proof {
        lemma_sum_capped_step(orig, prev as int, l as int);
        lemma_sum_capped_bounds(orig, l as int);
        lemma_sum_capped_bounds(orig, prev as int);
        lemma_sum_chips_nonneg(orig);
        lemma_count_ge_nonneg(orig, l as int);
        assert(slice * (c as int) == sum_capped(orig, l as int) - sum_capped(orig, prev as int));
        assert(0 <= slice * (c as int) < 0x8000_0000_0000_0000);
    }
    let layer: u64 = slice * (c as u64);
    let ghost sum0 = sum_rewards(orig);

    // The best key among the live seats that funded the layer.
    let mut best = HandKey { category: 11, primary: 0, secondary: 0 };
    let mut found = false;
    let ghost mut j0: int = 0;
    let mut k: usize = 0;
    while k < n
        invariant
            k <= n,
            players@ == orig,
            n == orig.len(),
            found ==> 0 <= j0 < n && winner_at(orig[j0], public@, l as int, best),
            found ==> forall|j: int|
                0 <= j < k && (#[trigger] orig[j]).active && orig[j].pot_chips >= l ==> best.le(
                    crate::eval::seat_key(orig[j].hand, public@),
                ),
            !found ==> forall|j: int|
                0 <= j < k ==> !((#[trigger] orig[j]).active && orig[j].pot_chips >= l),
        decreases n - k,
    {
        if players[k].active && players[k].pot_chips >= l {
            let key = crate::eval::rank_hand(players[k].hand, public);
            proof {
                crate::eval::lemma_rank_hand_is_seat_key(key, orig[k as int].hand, public@);
            }
            if !found || (key.le_exec(&best) && !best.le_exec(&key)) {
                best = key;
                found = true;
                proof {
                    j0 = k as int;
                }
            }
        }
        k = k + 1;
    }

    if !found {
        // No live seat funded the layer: return it to its contributors.
        let mut i2: usize = 0;
        while i2 < n
            invariant
                i2 <= n,
                players@.len() == n,
                n == orig.len(),
                forall|j: int|
                    0 <= j < n ==> same_except_reward(orig[j], #[trigger] players@[j])
                        && players@[j].reward >= orig[j].reward,
                forall|j: int|
                    0 <= j < i2 ==> (#[trigger] players@[j]).reward == orig[j].reward + (
                    if orig[j].pot_chips >= l {
                        l - prev
                    } else {
                        0int
                    }),
                forall|j: int| i2 <= j < n ==> #[trigger] players@[j] == orig[j],
                forall|j: int|
                    0 <= j < n && (#[trigger] orig[j]).pot_chips < l ==> players@[j] == orig[j],
                sum_rewards(players@) == sum0 + slice * count_ge(orig.take(i2 as int), l as int),
                sum_chips(players@) == sum_chips(orig),
                sum_committed(players@) == sum_committed(orig),
            decreases n - i2,
        {
            proof {
                assert(orig.take(i2 + 1) =~= orig.take(i2 as int).push(orig[i2 as int]));
                lemma_count_ge_snoc(orig.take(i2 as int), orig[i2 as int], l as int);
                let cc = count_ge(orig.take(i2 as int), l as int);
                assert(slice * (cc + 1) == slice * cc + slice) by (nonlinear_arith);
            }
            if players[i2].pot_chips >= l {
                proof {
                    // The next refund still fits the reward's type.
                    lemma_count_ge_prefix_le(orig, l as int, i2 + 1);
                    assert(slice * count_ge(orig.take(i2 + 1), l as int) <= slice * count_ge(
                        orig,
                        l as int,
                    )) by (nonlinear_arith)
                        requires
                            slice >= 0,
                            count_ge(orig.take(i2 + 1), l as int) <= count_ge(orig, l as int),
                    ;
                    assert(forall|j: int|
                        0 <= j < n ==> (#[trigger] players@[j]).reward >= 0);
                    lemma_reward_le_sum(players@, i2 as int);
                    lemma_pots_congruent(players@, orig, l as int, l as int);
                }
                let mut p = players[i2];
                p.reward = p.reward + slice as i64;
                proof {
                    lemma_sums_update(players@, i2 as int, p);
                }
                players[i2] = p;
            }
            i2 = i2 + 1;
        }
        proof {
            assert(orig.take(n as int) =~= orig);
            lemma_pots_congruent(players@, orig, l as int, l as int);
            assert(!exists_eligible(orig, l as int));
            assert forall|j: int| 0 <= j < n implies (#[trigger] players@[j]).reward
                == orig[j].reward + layer_gain(orig, public@, prev as int, l as int, j) by {}
        }
        return ;
    }

    // Count the winners, then split the layer among them.
    let mut wcount: usize = 0;
    let mut i3: usize = 0;
    while i3 < n
        invariant
            i3 <= n,
            players@ == orig,
            n == orig.len(),
            wcount as int == count_winners(orig.take(i3 as int), public@, l as int, best),
            wcount <= i3,
        decreases n - i3,
    {
        proof {
            assert(orig.take(i3 + 1) =~= orig.take(i3 as int).push(orig[i3 as int]));
            lemma_count_winners_snoc(orig.take(i3 as int), orig[i3 as int], public@, l as int, best);
            lemma_count_winners_bounds(orig.take(i3 as int), public@, l as int, best);
        }
        if players[i3].active && players[i3].pot_chips >= l {
            let key = crate::eval::rank_hand(players[i3].hand, public);
            proof {
                crate::eval::lemma_rank_hand_is_seat_key(key, orig[i3 as int].hand, public@);
            }
            if key == best {
                wcount = wcount + 1;
            }
        }
        i3 = i3 + 1;
    }
    proof {
        assert(orig.take(n as int) =~= orig);
        lemma_count_winners_bounds(orig, public@, l as int, best);
        assert(wcount >= 1);
    }

    let q = layer / (wcount as u64);
    let rem = layer % (wcount as u64);
    proof {
        vstd::arithmetic::div_mod::lemma_fundamental_div_mod(layer as int, wcount as int);
    }

    let mut paid: usize = 0;
    let mut i4: usize = 0;
    while i4 < n
        invariant
            i4 <= n,
            players@.len() == n,
            n == orig.len(),
            wcount as int == count_winners(orig, public@, l as int, best),
            wcount >= 1,
            q == layer / (wcount as u64),
            rem == layer % (wcount as u64),
            layer == q * wcount + rem,
            forall|j: int|
                0 <= j < n ==> same_except_reward(orig[j], #[trigger] players@[j])
                    && players@[j].reward >= orig[j].reward,
            forall|j: int|
                0 <= j < i4 ==> (#[trigger] players@[j]).reward == orig[j].reward + (
                if winner_at(orig[j], public@, l as int, best) {
                    (layer as int) / (wcount as int) + if is_first_winner(
                        orig,
                        public@,
                        l as int,
                        best,
                        j,
                    ) {
                        (layer as int) % (wcount as int)
                    } else {
                        0int
                    }
                } else {
                    0int
                }),
            forall|j: int| i4 <= j < n ==> #[trigger] players@[j] == orig[j],
            forall|j: int|
                0 <= j < n && (#[trigger] orig[j]).pot_chips < l ==> players@[j] == orig[j],
            paid as int == count_winners(orig.take(i4 as int), public@, l as int, best),
            sum_rewards(players@) == sum0 + q * paid + if paid > 0 {
                rem as int
            } else {
                0int
            },
            sum_chips(players@) == sum_chips(orig),
            sum_committed(players@) == sum_committed(orig),
        decreases n - i4,
    {
        proof {
            assert(orig.take(i4 + 1) =~= orig.take(i4 as int).push(orig[i4 as int]));
            lemma_count_winners_snoc(orig.take(i4 as int), orig[i4 as int], public@, l as int, best);
        }
        if players[i4].active && players[i4].pot_chips >= l {
            let key = crate::eval::rank_hand(players[i4].hand, public);
            proof {
                crate::eval::lemma_rank_hand_is_seat_key(key, orig[i4 as int].hand, public@);
            }
            if key == best {
                proof {
                    lemma_count_winners_prefix(orig, public@, l as int, best, i4 + 1);
                    // The first seat paid is the lowest winning seat.
                    if paid == 0 {
                        assert forall|j2: int|
                            0 <= j2 < i4 implies !winner_at(
                            #[trigger] orig[j2],
                            public@,
                            l as int,
                            best,
                        ) by {
                            if winner_at(orig[j2], public@, l as int, best) {
                                lemma_count_winners_bounds(
                                    orig.take(i4 as int),
                                    public@,
                                    l as int,
                                    best,
                                );
                                assert(orig.take(i4 as int)[j2] == orig[j2]);
                            }
                        }
                        assert(is_first_winner(orig, public@, l as int, best, i4 as int));
                    } else {
                        lemma_count_winners_zero_converse(orig, public@, l as int, best, i4 as int);
                    }
                    assert(q * (paid + 1) == q * paid + q) by (nonlinear_arith);
                    assert(q * (paid as int) >= 0 && q * (paid + 1) <= q * (wcount as int)) by (
                    nonlinear_arith)
                        requires
                            q >= 0,
                            0 <= paid as int + 1 <= wcount as int,
                    ;
                    assert(q * (wcount as int) <= layer);
                    assert(forall|j: int|
                        0 <= j < n ==> (#[trigger] players@[j]).reward >= 0);
                    lemma_reward_le_sum(players@, i4 as int);
                    lemma_pots_congruent(players@, orig, l as int, l as int);
                }
                let add: u64 = if paid == 0 {
                    q + rem
                } else {
                    q
                };
                let mut p = players[i4];
                p.reward = p.reward + add as i64;
                proof {
                    lemma_sums_update(players@, i4 as int, p);
                }
                players[i4] = p;
                paid = paid + 1;
            }
        }
        i4 = i4 + 1;
    }
    proof {
        assert(orig.take(n as int) =~= orig);
        assert(paid == wcount);
        assert(q * (wcount as int) + rem == layer);
        assert(sum_rewards(players@) == sum0 + layer);
        lemma_pots_congruent(players@, orig, l as int, l as int);
        // The best key found is the layer's best, so the per-seat gain
        // is exactly the specified award.
        assert(is_layer_best(orig, public@, l as int, best));
        assert(exists_eligible(orig, l as int));
        lemma_layer_best_unique(
            orig,
            public@,
            l as int,
            best,
            layer_best(orig, public@, l as int),
        );
        assert forall|j: int| 0 <= j < n implies (#[trigger] players@[j]).reward == orig[j].reward
            + layer_gain(orig, public@, prev as int, l as int, j) by {}
    }
}

/// Settle the hand at showdown: commit the street bets, cut the pot
/// into its layers, award each layer, then charge every seat what it
/// committed and close the hand.  The rewards of the settled hand sum
/// to zero, no seat loses more than it put in, and a seat that put
/// nothing in ends at zero.
#[verifier::loop_isolation(false)]
#[verifier::rlimit(60)]
pub fn resolve_pots(state: &mut State)
    requires
        old(state).seats_wf(),
        old(state).cards_wf(),
        old(state).chips_wf(),
    ensures
        final(state).players_state@.len() == old(state).players_state@.len(),
        sum_rewards(final(state).players_state@) == 0,
        sum_chips(final(state).players_state@) == sum_chips(old(state).players_state@),
        sum_committed(final(state).players_state@) == sum_committed(old(state).players_state@),
        final(state).final_state,
        forall|i: int|
            0 <= i < old(state).players_state@.len() ==> {
                let p0 = old(state).players_state@[i];
                let p1 = #[trigger] final(state).players_state@[i];
                &&& p1.bet_chips == 0
                &&& p1.pot_chips == p0.pot_chips + p0.bet_chips
                &&& !p1.active
                &&& (PlayerState {
                    bet_chips: p0.bet_chips,
                    pot_chips: p0.pot_chips,
                    reward: p0.reward,
                    active: p0.active,
                    ..p1
                }) == p0
                &&& p1.reward >= -(p0.pot_chips + p0.bet_chips)
                &&& (p0.pot_chips + p0.bet_chips == 0 ==> p1.reward == 0)
            },
        // The rewards are exactly the layered awards less the
        // commitments: each gap between adjacent commitment levels
        // goes to the best live hands that funded it (or back to its
        // contributors), the remainder to the lowest winning seat.
        settles(
            committed_seats(old(state).players_state@),
            old(state).public_cards@,
            final(state).players_state@,
        ),
        final(state).current_player == old(state).current_player,
        final(state).public_cards@ == old(state).public_cards@,
        final(state).stage == old(state).stage,
        final(state).button == old(state).button,
        final(state).from_action == old(state).from_action,
        final(state).action_list@ == old(state).action_list@,
        final(state).legal_actions@ == old(state).legal_actions@,
        final(state).deck@ == old(state).deck@,
        final(state).pot == old(state).pot,
        final(state).min_bet == old(state).min_bet,
        final(state).status == old(state).status,
{
    let ghost orig = old(state).players_state@;
    let n = state.players_state.len();
    commit_bets(&mut state.players_state);
    clear_rewards(&mut state.players_state);
    let ghost committed = state.players_state@;
    proof {
        assert forall|j: int| 0 <= j < n implies {
            &&& (#[trigger] committed[j]).bet_chips == 0
            &&& committed[j].pot_chips == orig[j].pot_chips + orig[j].bet_chips
            &&& committed[j].reward == 0
            &&& committed[j].active == orig[j].active
            &&& committed[j].hand == orig[j].hand
        } by {}
        lemma_sum_capped_zero(committed);
        lemma_rewards_zero(committed);
        assert(committed =~= committed_seats(orig));
    }
    let levels = collect_levels(&state.players_state);

    let mut prev: u64 = 0;
    let mut li: usize = 0;
    while li < levels.len()
        invariant
            state.players_state@.len() == n,
            n == committed.len(),
            li <= levels@.len(),
            li == 0 ==> prev == 0,
            li > 0 ==> prev == levels@[li - 1],
            forall|j: int|
                0 <= j < n ==> same_except_reward(committed[j], #[trigger] state.players_state@[j])
                    && state.players_state@[j].reward >= 0,
            forall|j: int|
                0 <= j < n && (#[trigger] committed[j]).pot_chips == 0
                    ==> state.players_state@[j].reward == 0,
            forall|j: int|
                0 <= j < n ==> (#[trigger] state.players_state@[j]).reward == winnings_upto(
                    committed,
                    old(state).public_cards@,
                    levels@,
                    li as int,
                    j,
                ),
            sum_rewards(state.players_state@) == sum_capped(state.players_state@, prev as int),
            sum_chips(state.players_state@) == sum_chips(orig),
            sum_committed(state.players_state@) == sum_committed(orig),
            state.current_player == old(state).current_player,
            state.public_cards@ == old(state).public_cards@,
            state.stage == old(state).stage,
            state.button == old(state).button,
            state.from_action == old(state).from_action,
            state.action_list@ == old(state).action_list@,
            state.legal_actions@ == old(state).legal_actions@,
            state.deck@ == old(state).deck@,
            state.pot == old(state).pot,
            state.min_bet == old(state).min_bet,
            state.final_state == old(state).final_state,
            state.status == old(state).status,
        decreases levels@.len() - li,
    {
        let l = levels[li];
        proof {
            assert(levels@[li as int] == l);
            assert(levels@.contains(l));
            assert(l > 0);
            if li > 0 {
                assert(prev == levels@[li - 1] && levels@[li - 1] < levels@[li as int]);
            }
            assert forall|j: int|
                0 <= j < n implies ((#[trigger] state.players_state@[j]).pot_chips <= prev
                || state.players_state@[j].pot_chips >= l) by {
                let pot = state.players_state@[j].pot_chips;
                assert(pot == committed[j].pot_chips);
                if pot > 0 {
                    assert(levels@.contains(pot));
                    let k = choose|k: int| 0 <= k < levels@.len() && levels@[k] == pot;
                    if k < li {
                        if k < li - 1 {
                            assert(levels@[k] < levels@[li - 1]);
                        }
                        assert(pot <= prev);
                    } else {
                        if k > li {
                            assert(levels@[li as int] < levels@[k]);
                        }
                        assert(pot >= l);
                    }
                }
            }
        }
        let ghost entry = state.players_state@;
        resolve_layer(&mut state.players_state, &state.public_cards, prev, l);
        proof {
            assert forall|j: int|
                0 <= j < n implies (#[trigger] state.players_state@[j]).reward == winnings_upto(
                committed,
                old(state).public_cards@,
                levels@,
                li + 1,
                j,
            ) by {
                assert(forall|i: int|
                    0 <= i < n ==> same_except_reward(#[trigger] entry[i], committed[i]));
                lemma_layer_gain_congruent(
                    entry,
                    committed,
                    old(state).public_cards@,
                    prev as int,
                    l as int,
                    j,
                );
            }
        }
        prev = l;
        li = li + 1;
    }

    proof {
        // Every commitment now sits at or below the final level.
        assert forall|j: int|
            0 <= j < n implies (#[trigger] state.players_state@[j]).pot_chips <= prev
            && state.players_state@[j].bet_chips == 0 by {
            let pot = state.players_state@[j].pot_chips;
            assert(pot == committed[j].pot_chips);
            if pot > 0 {
                assert(levels@.contains(pot));
                let k = choose|k: int| 0 <= k < levels@.len() && levels@[k] == pot;
                assert(li == levels@.len() && li > 0);
                if k < li - 1 {
                    assert(levels@[k] < levels@[li - 1]);
                }
                assert(pot <= prev);
            }
        }
        lemma_sum_capped_full(state.players_state@, prev as int);
    }

    // Charge every seat its commitment and close the hand.
    let ghost won = state.players_state@;
    let mut i: usize = 0;
    while i < n
        invariant
            state.players_state@.len() == n,
            n == won.len(),
            i <= n,
            forall|j: int| i <= j < n ==> #[trigger] state.players_state@[j] == won[j],
            forall|j: int|
                0 <= j < i ==> {
                    let p1 = #[trigger] state.players_state@[j];
                    &&& p1.reward == won[j].reward - won[j].pot_chips
                    &&& !p1.active
                    &&& (PlayerState { reward: won[j].reward, active: won[j].active, ..p1 })
                        == won[j]
                },
            forall|j: int| 0 <= j < n ==> (#[trigger] won[j]).reward >= 0,
            sum_rewards(state.players_state@) == sum_rewards(won) - sum_committed(
                won.take(i as int),
            ),
            sum_chips(state.players_state@) == sum_chips(orig),
            sum_committed(state.players_state@) == sum_committed(orig),
            sum_rewards(won) == sum_committed(won),
            sum_chips(won) == sum_chips(orig),
            sum_chips(orig) < 0x8000_0000_0000_0000,
            state.current_player == old(state).current_player,
            state.public_cards@ == old(state).public_cards@,
            state.stage == old(state).stage,
            state.button == old(state).button,
            state.from_action == old(state).from_action,
            state.action_list@ == old(state).action_list@,
            state.legal_actions@ == old(state).legal_actions@,
            state.deck@ == old(state).deck@,
            state.pot == old(state).pot,
            state.min_bet == old(state).min_bet,
            state.final_state == old(state).final_state,
            state.status == old(state).status,
        decreases n - i,
    {
        proof {
            assert(won.take(i + 1) =~= won.take(i as int).push(won[i as int]));
            lemma_sums_push(won.take(i as int), won[i as int]);
            lemma_reward_le_sum(won, i as int);
            lemma_sum_chips_part(won, i as int);
            lemma_sum_chips_nonneg(won);
        }
        let mut p = state.players_state[i];
        p.reward = p.reward - p.pot_chips as i64;
        p.active = false;
        proof {
            lemma_sums_update(state.players_state@, i as int, p);
        }
        state.players_state[i] = p;
        i = i + 1;
    }
    proof {
        assert(won.take(n as int) =~= won);
        assert(sorted_strict(levels@));
        assert forall|j: int|
            0 <= j < n implies (#[trigger] state.players_state@[j]).reward == winnings_upto(
            committed,
            old(state).public_cards@,
            levels@,
            levels@.len() as int,
            j,
        ) - committed[j].pot_chips by {
            assert(won[j].pot_chips == committed[j].pot_chips);
        }
    }
    state.final_state = true;
}

/// A prefix never counts more funded seats than the whole list.
proof fn lemma_count_ge_prefix_le(ps: Seq<PlayerState>, l: int, i: int)
    requires
        0 <= i <= ps.len(),
    ensures
        count_ge(ps.take(i), l) <= count_ge(ps, l),
        count_ge(ps.take(i), l) >= 0,
        count_ge(ps, l) >= 0,
    decreases ps.len() - i,
{
    lemma_count_ge_nonneg(ps.take(i), l);
    lemma_count_ge_nonneg(ps, l);
    if i == ps.len() {
        assert(ps.take(i) =~= ps);
    } else {
        lemma_count_ge_prefix_le(ps, l, i + 1);
        assert(ps.take(i + 1) =~= ps.take(i).push(ps[i]));
        lemma_count_ge_snoc(ps.take(i), ps[i], l);
    }
}

proof fn lemma_count_ge_nonneg(ps: Seq<PlayerState>, l: int)
    ensures
        count_ge(ps, l) >= 0,
    decreases ps.len(),
{
    if ps.len() > 0 {
        lemma_count_ge_nonneg(ps.drop_last(), l);
    }
}

} // verus!
