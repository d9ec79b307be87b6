//! The game-state model.
//!
//! A [`State`] is the aggregate of the players, the stage, the pot, the
//! remaining deck and the append-only action log.  One state is created
//! per hand; every later value is produced by applying one action to a
//! prior value, the prior value staying valid.  The well-formedness
//! invariant [`State::wf`] is established at the deal and preserved by
//! every transition: it carries chip conservation, the turn discipline
//! (exactly one active, funded seat may act while the hand runs), the
//! zero-sum property of final rewards, and the correctness of the
//! stored legal-action set and abstraction buckets.

use vstd::prelude::*;

use crate::abstraction::range_idx_of;
use crate::action::{ActionEnum, ActionRecord};
use crate::card::{all_cards_wf, Card};
use crate::stage::Stage;

verus! {

/// Whether a state is healthy or was produced by rejecting input.
/// Under the engine's uniform clamping policy every submitted action
/// is resolved rather than rejected, so the engine itself only ever
/// produces `Valid`; the rejection variants exist for callers that
/// mark states on their own and are absorbed unchanged by
/// [`State::apply_action`].
#[derive(Clone, Copy, PartialEq, Eq, Structural, Debug)]
pub enum StateStatus {
    Valid,
    IllegalAction,
    HighBet,
}

/// One seat's view: the fixed hole cards, the chip accounting for the
/// current street (`bet_chips`), the chips committed on prior streets
/// (`pot_chips`), the remaining uncommitted `stake`, the signed net
/// `reward` (meaningful once the hand is final), whether the seat is
/// still in the hand, the seat's last action of this street, and the
/// abstraction bucket of its holding.
#[derive(Clone, Copy, Debug)]
pub struct PlayerState {
    pub player: usize,
    pub hand: (Card, Card),
    pub bet_chips: u64,
    pub pot_chips: u64,
    pub stake: u64,
    pub reward: i64,
    pub active: bool,
    pub range_idx: i64,
    pub last_stage_action: Option<ActionEnum>,
}

/// The aggregate state of one hand.
#[derive(Debug)]
pub struct State {
    pub current_player: usize,
    pub players_state: Vec<PlayerState>,
    pub public_cards: Vec<Card>,
    pub stage: Stage,
    pub button: usize,
    pub from_action: Option<ActionRecord>,
    pub action_list: Vec<ActionRecord>,
    pub legal_actions: Vec<ActionEnum>,
    pub deck: Vec<Card>,
    pub pot: u64,
    pub min_bet: u64,
    pub final_state: bool,
    pub status: StateStatus,
}

// ------------------------------------------------------------------
// Chip sums.
// ------------------------------------------------------------------

/// The chips a hand holds in total: every seat's street bet, prior
/// commitment and remaining stake together.
pub open spec fn sum_chips(ps: Seq<PlayerState>) -> int
    decreases ps.len(),
{
    if ps.len() == 0 {
        0
    } else {
        sum_chips(ps.drop_last()) + ps.last().bet_chips + ps.last().pot_chips + ps.last().stake
    }
}

/// The chips in front of the seats: street bets plus prior commitments,
/// the running `pot` total.
pub open spec fn sum_committed(ps: Seq<PlayerState>) -> int
    decreases ps.len(),
{
    if ps.len() == 0 {
        0
    } else {
        sum_committed(ps.drop_last()) + ps.last().bet_chips + ps.last().pot_chips
    }
}

/// The signed rewards of all seats together.
pub open spec fn sum_rewards(ps: Seq<PlayerState>) -> int
    decreases ps.len(),
{
    if ps.len() == 0 {
        0
    } else {
        sum_rewards(ps.drop_last()) + ps.last().reward
    }
}

/// How replacing one seat's entry moves the three sums.
pub proof fn lemma_sums_update(ps: Seq<PlayerState>, i: int, p: PlayerState)
    requires
        0 <= i < ps.len(),
    ensures
        sum_chips(ps.update(i, p)) == sum_chips(ps) - (ps[i].bet_chips + ps[i].pot_chips
            + ps[i].stake) + (p.bet_chips + p.pot_chips + p.stake),
        sum_committed(ps.update(i, p)) == sum_committed(ps) - (ps[i].bet_chips + ps[i].pot_chips)
            + (p.bet_chips + p.pot_chips),
        sum_rewards(ps.update(i, p)) == sum_rewards(ps) - ps[i].reward + p.reward,
    decreases ps.len(),
{
    let upd = ps.update(i, p);
    if i == ps.len() - 1 {
        assert(upd.drop_last() =~= ps.drop_last());
        assert(upd.last() == p);
    } else {
        assert(upd.drop_last() =~= ps.drop_last().update(i, p));
        assert(upd.last() == ps.last());
        lemma_sums_update(ps.drop_last(), i, p);
    }
}

/// How appending one seat's entry grows the three sums.
pub proof fn lemma_sums_push(ps: Seq<PlayerState>, p: PlayerState)
    ensures
        sum_chips(ps.push(p)) == sum_chips(ps) + p.bet_chips + p.pot_chips + p.stake,
        sum_committed(ps.push(p)) == sum_committed(ps) + p.bet_chips + p.pot_chips,
        sum_rewards(ps.push(p)) == sum_rewards(ps) + p.reward,
{
    assert(ps.push(p).drop_last() =~= ps);
    assert(ps.push(p).last() == p);
}

/// Every sum of nonnegative parts dominates one seat's part.
pub proof fn lemma_sum_chips_part(ps: Seq<PlayerState>, i: int)
    requires
        0 <= i < ps.len(),
    ensures
        ps[i].bet_chips + ps[i].pot_chips + ps[i].stake <= sum_chips(ps),
        sum_chips(ps) >= 0,
        ps[i].bet_chips + ps[i].pot_chips <= sum_committed(ps),
        sum_committed(ps) >= 0,
        sum_committed(ps) <= sum_chips(ps),
    decreases ps.len(),
{
    lemma_sum_chips_nonneg(ps.drop_last());
    if i == ps.len() - 1 {
    } else {
        lemma_sum_chips_part(ps.drop_last(), i);
    }
}

/// The chip sums never go negative, and the committed part stays under
/// the total.
pub proof fn lemma_sum_chips_nonneg(ps: Seq<PlayerState>)
    ensures
        sum_chips(ps) >= 0,
        sum_committed(ps) >= 0,
        sum_committed(ps) <= sum_chips(ps),
    decreases ps.len(),
{
    if ps.len() > 0 {
        lemma_sum_chips_nonneg(ps.drop_last());
    }
}

// ------------------------------------------------------------------
// Legal actions.
// ------------------------------------------------------------------

/// The action kinds open to the seat on turn: none once the hand is
/// final, at showdown, or for an all-in seat; otherwise fold, the
/// check-or-call, and the bet-or-raise are all available.
pub open spec fn legal_actions_spec(s: State) -> Seq<ActionEnum> {
    if s.final_state || s.stage == Stage::Showdown {
        Seq::empty()
    } else if s.players_state@[s.current_player as int].stake == 0 {
        Seq::empty()
    } else {
        seq![ActionEnum::Fold, ActionEnum::CheckCall, ActionEnum::BetRaise]
    }
}

/// Law: legality is never contradictory.  An all-in seat (stake zero)
/// is never offered the bet-or-raise -- its action set is empty -- and
/// whenever any action is offered at all, the check-or-call and the
/// fold are both among them, so no seat is ever forced to put chips in.
pub proof fn lemma_no_contradictory_legality(s: State)
    requires
        0 <= s.current_player < s.players_state@.len(),
    ensures
        s.players_state@[s.current_player as int].stake == 0 ==> !legal_actions_spec(s).contains(
            ActionEnum::BetRaise,
        ),
        legal_actions_spec(s).len() > 0 ==> legal_actions_spec(s).contains(ActionEnum::CheckCall)
            && legal_actions_spec(s).contains(ActionEnum::Fold) && s.players_state@[
            s.current_player as int].stake > 0,
{
    let l = legal_actions_spec(s);
    if l.len() > 0 {
        assert(l[0] == ActionEnum::Fold);
        assert(l[1] == ActionEnum::CheckCall);
    }
}

// ------------------------------------------------------------------
// Well-formedness.
// ------------------------------------------------------------------

impl State {
    /// Seat bookkeeping: at least two seats, button and turn in range,
    /// and each entry numbered by its position.
    pub open spec fn seats_wf(self) -> bool {
        &&& self.players_state@.len() >= 2
        &&& self.players_state@.len() * 2 <= usize::MAX as int
        &&& (self.button as int) < self.players_state@.len()
        &&& (self.current_player as int) < self.players_state@.len()
        &&& forall|i: int|
            0 <= i < self.players_state@.len() ==> (#[trigger] self.players_state@[i]).player == i
    }

    /// Card bookkeeping: every card in sight is well formed and at most
    /// the five community cards are out.
    pub open spec fn cards_wf(self) -> bool {
        &&& all_cards_wf(self.public_cards@)
        &&& all_cards_wf(self.deck@)
        &&& self.public_cards@.len() <= 5
        &&& forall|i: int|
            0 <= i < self.players_state@.len() ==> (#[trigger] self.players_state@[i]).hand.0.wf()
                && self.players_state@[i].hand.1.wf()
    }

    /// Chip bookkeeping: the total stays below `2^63` so every sum and
    /// reward fits its machine type, and the `pot` field equals the
    /// chips the seats have put in front of them.
    pub open spec fn chips_wf(self) -> bool {
        &&& sum_chips(self.players_state@) < 0x8000_0000_0000_0000
        &&& self.pot as int == sum_committed(self.players_state@)
    }

    /// Turn discipline: while the hand runs, the stage is a betting
    /// stage and the seat on turn is active with chips behind.
    pub open spec fn turn_wf(self) -> bool {
        !self.final_state ==> {
            &&& self.stage != Stage::Showdown
            &&& self.players_state@[self.current_player as int].active
            &&& self.players_state@[self.current_player as int].stake > 0
        }
    }

    /// A final state settles the hand: rewards sum to zero and no seat
    /// is left active.
    pub open spec fn final_wf(self) -> bool {
        self.final_state ==> {
            &&& sum_rewards(self.players_state@) == 0
            &&& forall|i: int|
                0 <= i < self.players_state@.len() ==> !(#[trigger] self.players_state@[i]).active
        }
    }

    /// The board matches the stage: it never exceeds the stage's full
    /// size, and falls short of it only because the deck has run dry.
    pub open spec fn board_wf(self) -> bool {
        &&& self.public_cards@.len() <= self.stage.board_size()
        &&& (self.public_cards@.len() < self.stage.board_size() ==> self.deck@.len() == 0)
    }

    /// The stored legal-action set is the one the rules give.
    pub open spec fn legal_wf(self) -> bool {
        self.legal_actions@ == legal_actions_spec(self)
    }

    /// The stored abstraction buckets are the ones the holdings map to.
    pub open spec fn buckets_wf(self) -> bool {
        forall|i: int|
            0 <= i < self.players_state@.len() ==> (#[trigger] self.players_state@[i]).range_idx
                == range_idx_of(self.stage, self.public_cards@, self.players_state@[i].hand)
    }

    /// The state invariant apart from the stored legal-action set,
    /// which the engine recomputes last.
    pub open spec fn wf_core(self) -> bool {
        &&& self.seats_wf()
        &&& self.cards_wf()
        &&& self.board_wf()
        &&& self.chips_wf()
        &&& self.turn_wf()
        &&& self.final_wf()
        &&& self.buckets_wf()
    }

    /// The full state invariant: established by the deal, preserved by
    /// every transition.
    pub open spec fn wf(self) -> bool {
        &&& self.wf_core()
        &&& self.legal_wf()
    }

    /// Two states are equivalent when every observable agrees (action
    /// records compare field by field).
    pub open spec fn equiv(self, other: State) -> bool {
        &&& self.current_player == other.current_player
        &&& self.players_state@ == other.players_state@
        &&& self.public_cards@ == other.public_cards@
        &&& self.stage == other.stage
        &&& self.button == other.button
        &&& match (self.from_action, other.from_action) {
            (None, None) => true,
            (Some(a), Some(b)) => a.equiv(b),
            _ => false,
        }
        &&& self.action_list@.len() == other.action_list@.len()
        &&& forall|i: int|
            0 <= i < self.action_list@.len() ==> (#[trigger] self.action_list@[i]).equiv(
                other.action_list@[i],
            )
        &&& self.legal_actions@ == other.legal_actions@
        &&& self.deck@ == other.deck@
        &&& self.pot == other.pot
        &&& self.min_bet == other.min_bet
        &&& self.final_state == other.final_state
        &&& self.status == other.status
    }

    /// The abstraction bucket of one seat's holding, or -1 for a seat
    /// that does not exist.  Preflop this is the 169-class ordinal less
    /// one; postflop the suit-reduced two-card combination identifier.
    pub fn calculate_range_idx(&self, player_id: usize) -> (idx: i64)
        requires
            self.cards_wf(),
        ensures
            idx == if player_id < self.players_state@.len() {
                range_idx_of(
                    self.stage,
                    self.public_cards@,
                    self.players_state@[player_id as int].hand,
                )
            } else {
                -1
            },
    {
        if player_id >= self.players_state.len() {
            return -1;
        }
        let hand = self.players_state[player_id].hand;
        crate::abstraction::calculate_range_idx_cards(self.stage, &self.public_cards, hand)
    }

    /// Recompute every seat's abstraction bucket; nothing else moves.
    pub fn update_range_indices(&mut self)
        requires
            old(self).cards_wf(),
        ensures
            final(self).players_state@.len() == old(self).players_state@.len(),
            forall|i: int|
                0 <= i < old(self).players_state@.len() ==> {
                    let p = #[trigger] final(self).players_state@[i];
                    &&& p.range_idx as int == range_idx_of(
                        old(self).stage,
                        old(self).public_cards@,
                        old(self).players_state@[i].hand,
                    )
                    &&& (PlayerState { range_idx: old(self).players_state@[i].range_idx, ..p })
                        == old(self).players_state@[i]
                },
            final(self).buckets_wf(),
            same_except_players(*old(self), *final(self)),
            sum_chips(final(self).players_state@) == sum_chips(old(self).players_state@),
            sum_committed(final(self).players_state@) == sum_committed(old(self).players_state@),
            sum_rewards(final(self).players_state@) == sum_rewards(old(self).players_state@),
            old(self).seats_wf() ==> final(self).seats_wf(),
            old(self).cards_wf() ==> final(self).cards_wf(),
            old(self).chips_wf() ==> final(self).chips_wf(),
    {
        let ghost orig = self.players_state@;
        let n = self.players_state.len();
        let mut i: usize = 0;
        while i < n
            invariant
                n == orig.len(),
                self.players_state@.len() == n,
                i <= n,
                self.cards_wf(),
                self.stage == old(self).stage,
                self.public_cards@ == old(self).public_cards@,
                same_except_players(*old(self), *self),
                forall|j: int| i <= j < n ==> #[trigger] self.players_state@[j] == orig[j],
                forall|j: int|
                    0 <= j < i ==> {
                        let p = #[trigger] self.players_state@[j];
                        &&& p.range_idx as int == range_idx_of(
                            self.stage,
                            self.public_cards@,
                            orig[j].hand,
                        )
                        &&& (PlayerState { range_idx: orig[j].range_idx, ..p }) == orig[j]
                    },
            decreases n - i,
        {
            let idx = crate::abstraction::calculate_range_idx_cards(
                self.stage,
                &self.public_cards,
                self.players_state[i].hand,
            );
            let mut p = self.players_state[i];
            p.range_idx = idx;
            self.players_state[i] = p;
            i = i + 1;
        }
        proof {
            lemma_chip_fields_congruent(orig, self.players_state@);
            if old(self).seats_wf() {
                assert forall|j: int| 0 <= j < n implies (#[trigger] self.players_state@[j]).player
                    == j by {
                    assert(orig[j].player == j);
                }
            }
            if old(self).cards_wf() {
                assert forall|j: int| 0 <= j < n implies (#[trigger] self.players_state@[j]).hand.0.wf()
                    && self.players_state@[j].hand.1.wf() by {
                    assert(orig[j].hand == self.players_state@[j].hand);
                }
            }
        }
    }
}

/// Sums that read only chips and rewards agree on seat lists whose
/// chip and reward fields agree pointwise.
pub proof fn lemma_chip_fields_congruent(a: Seq<PlayerState>, b: Seq<PlayerState>)
    requires
        a.len() == b.len(),
        forall|i: int|
            0 <= i < a.len() ==> {
                let x = #[trigger] a[i];
                let y = #[trigger] b[i];
                x.bet_chips == y.bet_chips && x.pot_chips == y.pot_chips && x.stake == y.stake
                    && x.reward == y.reward
            },
    ensures
        sum_chips(a) == sum_chips(b),
        sum_committed(a) == sum_committed(b),
        sum_rewards(a) == sum_rewards(b),
    decreases a.len(),
{
    if a.len() > 0 {
        let pa = a.drop_last();
        let pb = b.drop_last();
        assert(forall|i: int| 0 <= i < pa.len() ==> pa[i] == a[i] && pb[i] == b[i]);
        lemma_chip_fields_congruent(pa, pb);
        assert(a[a.len() - 1] == a.last() && b[b.len() - 1] == b.last());
    }
}

/// Everything but the seats agrees between the two states.
pub open spec fn same_except_players(a: State, b: State) -> bool {
    &&& a.current_player == b.current_player
    &&& a.public_cards@ == b.public_cards@
    &&& a.stage == b.stage
    &&& a.button == b.button
    &&& a.from_action == b.from_action
    &&& a.action_list@ == b.action_list@
    &&& a.legal_actions@ == b.legal_actions@
    &&& a.deck@ == b.deck@
    &&& a.pot == b.pot
    &&& a.min_bet == b.min_bet
    &&& a.final_state == b.final_state
    &&& a.status == b.status
}

// ------------------------------------------------------------------
// Copying.
// ------------------------------------------------------------------

/// An element-by-element copy of a card list.
pub fn copy_cards(v: &Vec<Card>) -> (r: Vec<Card>)
    ensures
        r@ == v@,
{
    let mut r: Vec<Card> = Vec::new();
    let mut i: usize = 0;
    while i < v.len()
        invariant
            i <= v@.len(),
            r@ == v@.take(i as int),
        decreases v@.len() - i,
    {
        r.push(v[i]);
        i = i + 1;
        assert(r@ =~= v@.take(i as int));
    }
    assert(r@ =~= v@);
    r
}

/// An element-by-element copy of the seats.
pub fn copy_players(v: &Vec<PlayerState>) -> (r: Vec<PlayerState>)
    ensures
        r@ == v@,
{
    let mut r: Vec<PlayerState> = Vec::new();
    let mut i: usize = 0;
    while i < v.len()
        invariant
            i <= v@.len(),
            r@ == v@.take(i as int),
        decreases v@.len() - i,
    {
        r.push(v[i]);
        i = i + 1;
        assert(r@ =~= v@.take(i as int));
    }
    assert(r@ =~= v@);
    r
}

/// A record-by-record copy of the action log.
pub fn copy_records(v: &Vec<ActionRecord>) -> (r: Vec<ActionRecord>)
    ensures
        r@.len() == v@.len(),
        forall|i: int| 0 <= i < v@.len() ==> (#[trigger] r@[i]).equiv(v@[i]),
{
    let mut r: Vec<ActionRecord> = Vec::new();
    let mut i: usize = 0;
    while i < v.len()
        invariant
            i <= v@.len(),
            r@.len() == i,
            forall|j: int| 0 <= j < i ==> (#[trigger] r@[j]).equiv(v@[j]),
        decreases v@.len() - i,
    {
        r.push(v[i].clone());
        i = i + 1;
    }
    r
}

impl Clone for State {
    /// A deep copy, equivalent to the original in every observable.
    fn clone(&self) -> (r: Self)
        ensures
            r.equiv(*self),
            self.wf() ==> r.wf(),
    {
        let from_action = match &self.from_action {
            Some(rec) => Some(rec.clone()),
            None => None,
        };
        let r = State {
            current_player: self.current_player,
            players_state: copy_players(&self.players_state),
            public_cards: copy_cards(&self.public_cards),
            stage: self.stage,
            button: self.button,
            from_action,
            action_list: copy_records(&self.action_list),
            legal_actions: crate::action::copy_action_kinds(&self.legal_actions),
            deck: copy_cards(&self.deck),
            pot: self.pot,
            min_bet: self.min_bet,
            final_state: self.final_state,
            status: self.status,
        };
        r
    }
}

} // verus!
