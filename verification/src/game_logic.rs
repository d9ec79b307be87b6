//! The betting state machine.
//!
//! A hand is driven by applying one action at a time to an immutable
//! prior state.  Submitting an action validates and clamps it rather
//! than failing: the check-or-call puts in exactly what matching the
//! table maximum costs (capped by the stake), the bet-or-raise clamps
//! the requested street total between the table minimum and an all-in,
//! and a fold always stands.  When the betting round concludes, the
//! street's bets are committed, the stage moves strictly forward, the
//! next community cards are dealt, and an all-in runout or the showdown
//! settles the hand through the side-pot resolver.

use vstd::prelude::*;

use crate::action::{copy_action_kinds, Action, ActionEnum, ActionRecord};
use crate::card::{all_cards_wf, full_deck, lemma_full_deck_distinct, lemma_permutation_keeps_wf, shuffle_cards, Card};
use crate::pots::{commit_bets, committed_seats, lemma_settles_transfer, min_i, resolve_pots, same_for_settlement, settles};
use crate::stage::Stage;
use crate::state::{
    legal_actions_spec, lemma_sum_chips_nonneg, lemma_sum_chips_part, lemma_sums_push,
    lemma_sums_update, sum_chips, sum_committed, sum_rewards, PlayerState, State, StateStatus,
};

verus! {

/// Why a hand could not be constructed.
#[derive(Clone, Copy, PartialEq, Eq, Structural, Debug)]
pub enum InitStateError {
    /// Fewer than two players were asked for.
    NotEnoughPlayers,
    /// The button seat is not one of the players.
    InvalidButton,
    /// The deck cannot give every player two hole cards.
    DeckTooSmall,
    /// The small blind must be positive.
    InvalidSmallBlind,
    /// The big blind must be at least the small blind.
    InvalidBlindOrder,
    /// The starting stake must cover the big blind.
    StakeTooSmall,
    /// The chips in play must fit the engine's accounting range.
    TooManyChips,
}

/// The context one betting round carries: the street's target bet
/// level, who raised last, and counters reset on every raise.
#[derive(Clone, Copy, PartialEq, Eq, Structural, Debug)]
pub struct BettingRoundContext {
    pub amount_to_call: u64,
    pub last_raiser_idx: Option<usize>,
    pub actions_this_round: usize,
    pub players_in_round: usize,
    pub starting_player: usize,
}

impl BettingRoundContext {
    pub fn new(amount_to_call: u64, players_in_round: usize, starting_player: usize) -> (r:
        BettingRoundContext)
        ensures
            r == (BettingRoundContext {
                amount_to_call,
                last_raiser_idx: None,
                actions_this_round: 0,
                players_in_round,
                starting_player,
            }),
    {
        BettingRoundContext {
            amount_to_call,
            last_raiser_idx: None,
            actions_this_round: 0,
            players_in_round,
            starting_player,
        }
    }
}

/// The machine is waiting for one seat to act.
#[derive(Clone, Copy, PartialEq, Eq, Structural, Debug)]
pub struct AwaitingAction {
    pub player_to_act_idx: usize,
    pub context: BettingRoundContext,
}

impl AwaitingAction {
    pub fn new(player_to_act_idx: usize, context: BettingRoundContext) -> (r: AwaitingAction)
        ensures
            r == (AwaitingAction { player_to_act_idx, context }),
    {
        AwaitingAction { player_to_act_idx, context }
    }
}

/// The betting round has concluded; the stage must advance.
#[derive(Clone, Copy, PartialEq, Eq, Structural, Debug)]
pub struct RoundOver;

impl RoundOver {
    pub fn new() -> (r: RoundOver)
        ensures
            r == RoundOver,
    {
        RoundOver
    }
}

/// The hand is settled; no further action is accepted.
#[derive(Clone, Copy, PartialEq, Eq, Structural, Debug)]
pub struct GameOver;

/// The betting state machine as a tagged union: each variant carries
/// only what its own transition needs.
#[derive(Clone, Copy, PartialEq, Eq, Structural, Debug)]
pub enum RoundPhase {
    Awaiting(AwaitingAction),
    Over(RoundOver),
    Done(GameOver),
}

// ------------------------------------------------------------------
// The meaning of one action.
// ------------------------------------------------------------------

/// The highest street bet any live seat has out.
pub open spec fn max_bet_of(ps: Seq<PlayerState>) -> int
    decreases ps.len(),
{
    if ps.len() == 0 {
        0
    } else {
        let m = max_bet_of(ps.drop_last());
        if ps.last().active && ps.last().bet_chips > m {
            ps.last().bet_chips as int
        } else {
            m
        }
    }
}

/// What a check-or-call moves: nothing when the seat already matches
/// the table maximum, else the difference capped by the stake.
pub open spec fn call_amount(p: PlayerState, maxbet: int) -> int {
    if p.bet_chips >= maxbet {
        0
    } else {
        min_i(maxbet - p.bet_chips, p.stake as int)
    }
}

/// The street total a bet-or-raise resolves to: an all-in when the
/// stake cannot reach the table minimum, else the requested total
/// raised to at least the minimum.
pub open spec fn raise_target(p: PlayerState, min_bet: int, desired: int) -> int {
    if (p.stake as int) < min_bet {
        p.bet_chips + p.stake
    } else if desired < min_bet {
        if min_bet >= p.bet_chips {
            min_bet
        } else {
            p.bet_chips as int
        }
    } else {
        desired
    }
}

/// The chips a bet-or-raise actually moves: the gap up to the resolved
/// total, never negative, capped by the stake.
pub open spec fn raise_amount(p: PlayerState, min_bet: int, desired: int) -> int {
    let t = raise_target(p, min_bet, desired);
    let extra = if t >= p.bet_chips {
        t - p.bet_chips
    } else {
        0
    };
    min_i(extra, p.stake as int)
}

/// The resolved chip amount an action record carries: nothing for a
/// fold, the chips moved for a check-or-call, the street total for a
/// bet-or-raise.
pub open spec fn resolved_amount(s: State, a: Action) -> int {
    let p = s.players_state@[s.current_player as int];
    match a.action {
        ActionEnum::Fold => 0,
        ActionEnum::CheckCall => call_amount(p, max_bet_of(s.players_state@)),
        ActionEnum::BetRaise => p.bet_chips + raise_amount(p, s.min_bet as int, a.amount as int),
    }
}

/// The chips an action moves from the acting seat's stake to the
/// table: nothing for a fold, the call gap for a check-or-call, the
/// clamped raise gap for a bet-or-raise.
pub open spec fn action_delta(s: State, a: Action) -> int {
    let p = s.players_state@[s.current_player as int];
    match a.action {
        ActionEnum::Fold => 0,
        ActionEnum::CheckCall => call_amount(p, max_bet_of(s.players_state@)),
        ActionEnum::BetRaise => raise_amount(p, s.min_bet as int, a.amount as int),
    }
}

/// The seat folded: its street bet is forfeited into its commitment,
/// it leaves the hand, and its reward records the loss so far.
pub open spec fn fold_applied(p0: PlayerState, p1: PlayerState) -> bool {
    &&& !p1.active
    &&& p1.pot_chips == p0.pot_chips + p0.bet_chips
    &&& p1.bet_chips == 0
    &&& p1.reward == 0 - (p0.pot_chips as int + p0.bet_chips as int)
    &&& p1.last_stage_action == Some(ActionEnum::Fold)
    &&& (PlayerState {
        active: p0.active,
        pot_chips: p0.pot_chips,
        bet_chips: p0.bet_chips,
        reward: p0.reward,
        last_stage_action: p0.last_stage_action,
        ..p1
    }) == p0
}

/// The seat moved `delta` chips from its stake to its street bet and
/// recorded the action kind; nothing else about it changed.
pub open spec fn chips_moved(p0: PlayerState, p1: PlayerState, delta: int, kind: ActionEnum)
    -> bool {
    &&& p1.bet_chips == p0.bet_chips + delta
    &&& p1.stake == p0.stake - delta
    &&& p1.last_stage_action == Some(kind)
    &&& (PlayerState {
        bet_chips: p0.bet_chips,
        stake: p0.stake,
        last_stage_action: p0.last_stage_action,
        ..p1
    }) == p0
}

/// The acting seat after the action's chip effect, as a specification
/// value.
pub open spec fn player_after_effect(s: State, a: Action) -> PlayerState {
    let p = s.players_state@[s.current_player as int];
    match a.action {
        ActionEnum::Fold => PlayerState {
            active: false,
            pot_chips: (p.pot_chips + p.bet_chips) as u64,
            bet_chips: 0,
            reward: (0 - (p.pot_chips as int + p.bet_chips as int)) as i64,
            last_stage_action: Some(ActionEnum::Fold),
            ..p
        },
        ActionEnum::CheckCall => PlayerState {
            bet_chips: (p.bet_chips + call_amount(p, max_bet_of(s.players_state@))) as u64,
            stake: (p.stake - call_amount(p, max_bet_of(s.players_state@))) as u64,
            last_stage_action: Some(ActionEnum::CheckCall),
            ..p
        },
        ActionEnum::BetRaise => PlayerState {
            bet_chips: (p.bet_chips + raise_amount(p, s.min_bet as int, a.amount as int)) as u64,
            stake: (p.stake - raise_amount(p, s.min_bet as int, a.amount as int)) as u64,
            last_stage_action: Some(ActionEnum::BetRaise),
            ..p
        },
    }
}

/// The seats after the action's chip effect: only the acting seat
/// moves.
pub open spec fn players_after_effect(s: State, a: Action) -> Seq<PlayerState> {
    s.players_state@.update(s.current_player as int, player_after_effect(s, a))
}

/// Whether applying the action concludes the betting round: the
/// round-over predicate holds of the seats after the effect, or no
/// seat past the actor can act any more.
pub open spec fn hand_advances(s: State, a: Action) -> bool {
    let pae = players_after_effect(s, a);
    ||| round_over(pae, s.stage, s.button as int)
    ||| !(exists|d: int|
        1 <= d <= pae.len() && #[trigger] elig_at(pae, s.current_player as int, d))
}

/// Compute the highest live street bet.
fn max_bet_exec(players: &Vec<PlayerState>) -> (m: u64)
    ensures
        m as int == max_bet_of(players@),
{
    let mut m: u64 = 0;
    let mut i: usize = 0;
    while i < players.len()
        invariant
            i <= players@.len(),
            m as int == max_bet_of(players@.take(i as int)),
        decreases players@.len() - i,
    {
        proof {
            assert(players@.take(i + 1) =~= players@.take(i as int).push(players@[i as int]));
            assert(players@.take(i + 1).drop_last() =~= players@.take(i as int));
        }
        if players[i].active && players[i].bet_chips > m {
            m = players[i].bet_chips;
        }
        i = i + 1;
    }
    proof {
        assert(players@.take(players@.len() as int) =~= players@);
    }
    m
}

/// Apply one resolved action's chip effect to the seat on turn and the
/// table, and report the resolved amount for the log.
#[verifier::loop_isolation(false)]
fn apply_action_effect(state: &mut State, a: Action) -> (amt: u64)
    requires
        old(state).seats_wf(),
        old(state).chips_wf(),
    ensures
        amt as int == resolved_amount(*old(state), a),
        final(state).players_state@.len() == old(state).players_state@.len(),
        forall|j: int|
            0 <= j < old(state).players_state@.len() && j != old(state).current_player as int
                ==> #[trigger] final(state).players_state@[j] == old(state).players_state@[j],
        ({
            let p0 = old(state).players_state@[old(state).current_player as int];
            let p1 = final(state).players_state@[old(state).current_player as int];
            match a.action {
                ActionEnum::Fold => fold_applied(p0, p1) && final(state).min_bet == old(
                    state,
                ).min_bet && final(state).pot == old(state).pot,
                ActionEnum::CheckCall => chips_moved(
                    p0,
                    p1,
                    call_amount(p0, max_bet_of(old(state).players_state@)),
                    ActionEnum::CheckCall,
                ) && final(state).min_bet == old(state).min_bet && final(state).pot == old(
                    state,
                ).pot + call_amount(p0, max_bet_of(old(state).players_state@)),
                ActionEnum::BetRaise => chips_moved(
                    p0,
                    p1,
                    raise_amount(p0, old(state).min_bet as int, a.amount as int),
                    ActionEnum::BetRaise,
                ) && final(state).min_bet as int == (if p1.bet_chips > old(state).min_bet {
                    p1.bet_chips as int
                } else {
                    old(state).min_bet as int
                }) && final(state).pot == old(state).pot + raise_amount(
                    p0,
                    old(state).min_bet as int,
                    a.amount as int,
                ),
            }
        }),
        sum_chips(final(state).players_state@) == sum_chips(old(state).players_state@),
        final(state).seats_wf(),
        final(state).chips_wf(),
        final(state).current_player == old(state).current_player,
        final(state).public_cards@ == old(state).public_cards@,
        final(state).stage == old(state).stage,
        final(state).button == old(state).button,
        final(state).from_action == old(state).from_action,
        final(state).action_list@ == old(state).action_list@,
        final(state).legal_actions@ == old(state).legal_actions@,
        final(state).deck@ == old(state).deck@,
        final(state).final_state == old(state).final_state,
        final(state).status == old(state).status,
{
    let cur = state.current_player;
    proof {
        lemma_sum_chips_part(state.players_state@, cur as int);
        lemma_sum_chips_nonneg(state.players_state@);
    }
    match a.action {
        ActionEnum::Fold => {
            let mut p = state.players_state[cur];
            p.pot_chips = p.pot_chips + p.bet_chips;
            p.bet_chips = 0;
            p.reward = 0i64 - (p.pot_chips as i64);
            p.active = false;
            p.last_stage_action = Some(ActionEnum::Fold);
            proof {
                lemma_sums_update(state.players_state@, cur as int, p);
            }
            state.players_state[cur] = p;
            0
        },
        ActionEnum::CheckCall => {
            let maxbet = max_bet_exec(&state.players_state);
            let mut p = state.players_state[cur];
            let delta: u64 = if p.bet_chips >= maxbet {
                0
            } else if maxbet - p.bet_chips <= p.stake {
                maxbet - p.bet_chips
            } else {
                p.stake
            };
            p.bet_chips = p.bet_chips + delta;
            p.stake = p.stake - delta;
            p.last_stage_action = Some(ActionEnum::CheckCall);
            proof {
                lemma_sums_update(state.players_state@, cur as int, p);
            }
            state.players_state[cur] = p;
            state.pot = state.pot + delta;
            delta
        },
        ActionEnum::BetRaise => {
            let mut p = state.players_state[cur];
            let target: u64 = if p.stake < state.min_bet {
                p.bet_chips + p.stake
            } else if a.amount < state.min_bet {
                if state.min_bet >= p.bet_chips {
                    state.min_bet
                } else {
                    p.bet_chips
                }
            } else {
                a.amount
            };
            let extra: u64 = if target >= p.bet_chips {
                target - p.bet_chips
            } else {
                0
            };
            let delta: u64 = if extra <= p.stake {
                extra
            } else {
                p.stake
            };
            p.bet_chips = p.bet_chips + delta;
            p.stake = p.stake - delta;
            p.last_stage_action = Some(ActionEnum::BetRaise);
            proof {
                lemma_sums_update(state.players_state@, cur as int, p);
            }
            state.players_state[cur] = p;
            state.pot = state.pot + delta;
            if p.bet_chips > state.min_bet {
                state.min_bet = p.bet_chips;
            }
            p.bet_chips
        },
    }
}

// ------------------------------------------------------------------
// The round-over predicate.
// ------------------------------------------------------------------

/// How many seats are still in the hand.
pub open spec fn count_active(ps: Seq<PlayerState>) -> int
    decreases ps.len(),
{
    if ps.len() == 0 {
        0
    } else {
        count_active(ps.drop_last()) + if ps.last().active {
            1int
        } else {
            0int
        }
    }
}

/// How many seats could still act: in the hand and with chips behind.
pub open spec fn count_eligible(ps: Seq<PlayerState>) -> int
    decreases ps.len(),
{
    if ps.len() == 0 {
        0
    } else {
        count_eligible(ps.drop_last()) + if eligible(ps.last()) {
            1int
        } else {
            0int
        }
    }
}

/// The seat is in the hand and has chips behind.
pub open spec fn eligible(p: PlayerState) -> bool {
    p.active && p.stake > 0
}

/// Every live seat has acted this street or stands all-in.
pub open spec fn all_acted_or_allin(ps: Seq<PlayerState>) -> bool {
    forall|i: int|
        0 <= i < ps.len() && (#[trigger] ps[i]).active ==> (ps[i].last_stage_action is Some || ps[
            i
        ].stake == 0)
}

/// Every live seat matches the table maximum or stands all-in.
pub open spec fn bets_settled(ps: Seq<PlayerState>) -> bool {
    forall|i: int|
        0 <= i < ps.len() && (#[trigger] ps[i]).active ==> (ps[i].bet_chips as int == max_bet_of(
            ps,
        ) || ps[i].stake == 0)
}

/// Preflop the round cannot close before the big blind had its option:
/// the seat two past the button must have acted or left the hand.
pub open spec fn preflop_option_done(ps: Seq<PlayerState>, stage: Stage, button: int) -> bool {
    stage == Stage::Preflop ==> {
        let bb = ps[(button + 2) % (ps.len() as int)];
        !bb.active || bb.last_stage_action is Some
    }
}

/// The betting round has concluded: at most one seat is left in the
/// hand, or every live seat has acted and matched the maximum (or is
/// all-in) and, preflop, the big blind had its option.
pub open spec fn round_over(ps: Seq<PlayerState>, stage: Stage, button: int) -> bool {
    ||| count_active(ps) <= 1
    ||| (all_acted_or_allin(ps) && bets_settled(ps) && preflop_option_done(ps, stage, button))
}

/// Count the seats still in the hand.
#[verifier::loop_isolation(false)]
fn count_active_exec(players: &Vec<PlayerState>) -> (actives: usize)
    ensures
        actives as int == count_active(players@),
{
    let n = players.len();
    let mut actives: usize = 0;
    let mut i: usize = 0;
    while i < n
        invariant
            i <= n,
            n == players@.len(),
            actives as int == count_active(players@.take(i as int)),
            actives <= i,
        decreases n - i,
    {
        proof {
            assert(players@.take(i + 1) =~= players@.take(i as int).push(players@[i as int]));
            assert(players@.take(i + 1).drop_last() =~= players@.take(i as int));
        }
        if players[i].active {
            actives = actives + 1;
        }
        i = i + 1;
    }
    proof {
        assert(players@.take(n as int) =~= players@);
    }
    actives
}

/// Decide whether the betting round has concluded.
#[verifier::loop_isolation(false)]
fn is_round_over(state: &State) -> (r: bool)
    requires
        state.seats_wf(),
    ensures
        r == round_over(state.players_state@, state.stage, state.button as int),
{
    let n = state.players_state.len();

    let actives = count_active_exec(&state.players_state);
    if actives <= 1 {
        return true;
    }

    let mut acted = true;
    let mut i2: usize = 0;
    while i2 < n
        invariant
            i2 <= n,
            acted == (forall|j: int|
                0 <= j < i2 && (#[trigger] state.players_state@[j]).active ==> (
                state.players_state@[j].last_stage_action is Some || state.players_state@[j].stake
                    == 0)),
        decreases n - i2,
    {
        let p = state.players_state[i2];
        if p.active && !(p.last_stage_action.is_some() || p.stake == 0) {
            acted = false;
        }
        i2 = i2 + 1;
    }
    if !acted {
        return false;
    }

    let maxbet = max_bet_exec(&state.players_state);
    let mut settled = true;
    let mut i3: usize = 0;
    while i3 < n
        invariant
            i3 <= n,
            maxbet as int == max_bet_of(state.players_state@),
            settled == (forall|j: int|
                0 <= j < i3 && (#[trigger] state.players_state@[j]).active ==> (
                state.players_state@[j].bet_chips == maxbet || state.players_state@[j].stake == 0)),
        decreases n - i3,
    {
        let p = state.players_state[i3];
        if p.active && !(p.bet_chips == maxbet || p.stake == 0) {
            settled = false;
        }
        i3 = i3 + 1;
    }
    if !settled {
        return false;
    }

    if matches!(state.stage, Stage::Preflop) {
        let bb = (state.button + 2) % n;
        let p = state.players_state[bb];
        if p.active && !p.last_stage_action.is_some() {
            return false;
        }
    }
    true
}

/// The seat can act at cyclic offset `d` past `start`.
pub open spec fn elig_at(ps: Seq<PlayerState>, start: int, d: int) -> bool {
    eligible(ps[(start + d) % (ps.len() as int)])
}

/// `k` is the first seat clockwise of `start` that is in the hand with
/// chips behind.
pub open spec fn first_eligible_from(ps: Seq<PlayerState>, start: int, k: int) -> bool {
    exists|d: int|
        1 <= d <= ps.len() && k == (start + d) % (ps.len() as int) && (#[trigger] elig_at(
            ps,
            start,
            d,
        )) && (forall|e: int| 1 <= e < d ==> !(#[trigger] elig_at(ps, start, e)))
}

/// The first seat clockwise of `start` that is in the hand with chips
/// behind, or `None` when no seat (including `start` itself, at a full
/// turn) can act.
#[verifier::loop_isolation(false)]
fn find_next_actor(players: &Vec<PlayerState>, start: usize) -> (r: Option<usize>)
    requires
        players@.len() >= 1,
        players@.len() * 2 <= usize::MAX as int,
        start < players@.len(),
    ensures
        match r {
            Some(k) => (k as int) < players@.len() && eligible(players@[k as int])
                && first_eligible_from(players@, start as int, k as int),
            None => forall|d: int|
                1 <= d <= players@.len() ==> !(#[trigger] elig_at(players@, start as int, d)),
        },
{
    let n = players.len();
    let mut d: usize = 1;
    while d <= n
        invariant
            1 <= d <= n + 1,
            n == players@.len(),
            start < n,
            forall|e: int| 1 <= e < d ==> !(#[trigger] elig_at(players@, start as int, e)),
        decreases n + 1 - d,
    {
        let k = (start + d) % n;
        if players[k].active && players[k].stake > 0 {
            proof {
                assert(k as int == (start as int + d as int) % (players@.len() as int));
                assert(elig_at(players@, start as int, d as int));
            }
            return Some(k);
        }
        proof {
            assert(!elig_at(players@, start as int, d as int));
        }
        d = d + 1;
    }
    None
}

/// Liveness and funding counts read nothing but those fields.
proof fn lemma_counts_congruent(a: Seq<PlayerState>, b: Seq<PlayerState>)
    requires
        a.len() == b.len(),
        forall|i: int|
            0 <= i < a.len() ==> (#[trigger] a[i]).active == b[i].active && a[i].stake
                == b[i].stake,
    ensures
        count_active(a) == count_active(b),
        count_eligible(a) == count_eligible(b),
    decreases a.len(),
{
    if a.len() > 0 {
        let pa = a.drop_last();
        let pb = b.drop_last();
        assert(forall|i: int| 0 <= i < pa.len() ==> pa[i] == a[i] && pb[i] == b[i]);
        lemma_counts_congruent(pa, pb);
        assert(a[a.len() - 1] == a.last() && b[b.len() - 1] == b.last());
    }
}

/// A full cyclic scan that found no seat able to act means no seat
/// anywhere can act.
proof fn lemma_no_actor_anywhere(ps: Seq<PlayerState>, start: int)
    requires
        0 <= start < ps.len(),
        forall|d: int| 1 <= d <= ps.len() ==> !(#[trigger] elig_at(ps, start, d)),
    ensures
        forall|i: int| 0 <= i < ps.len() ==> !eligible(#[trigger] ps[i]),
{
    let nn = ps.len() as int;
    assert forall|i: int| 0 <= i < nn implies !eligible(#[trigger] ps[i]) by {
        let e = (i - start - 1) % nn;
        let d = e + 1;
        vstd::arithmetic::div_mod::lemma_add_mod_noop_right(start + 1, i - start - 1, nn);
        vstd::arithmetic::div_mod::lemma_small_mod(i as nat, nn as nat);
        assert((start + d) % nn == i);
        assert(!elig_at(ps, start, d));
    }
}

/// With no seat able to act the funded-seat count is zero.
proof fn lemma_count_eligible_zero(ps: Seq<PlayerState>)
    requires
        forall|i: int| 0 <= i < ps.len() ==> !eligible(#[trigger] ps[i]),
    ensures
        count_eligible(ps) == 0,
    decreases ps.len(),
{
    if ps.len() > 0 {
        let prev = ps.drop_last();
        assert(forall|i: int| 0 <= i < prev.len() ==> prev[i] == ps[i]);
        lemma_count_eligible_zero(prev);
        assert(ps[ps.len() - 1] == ps.last());
    }
}

// ------------------------------------------------------------------
// Dealing.
// ------------------------------------------------------------------

/// Deal up to `n_deal` community cards from the front of the deck.
/// The deal degrades gracefully: it never draws more cards than the
/// deck holds, and never grows the board past five.
#[verifier::loop_isolation(false)]
fn deal_community(state: &mut State, n_deal: usize)
    requires
        old(state).cards_wf(),
    ensures
        ({
            let d = min_i(
                min_i(n_deal as int, old(state).deck@.len() as int),
                5 - old(state).public_cards@.len(),
            );
            &&& final(state).public_cards@ == old(state).public_cards@ + old(state).deck@.take(d)
            &&& final(state).deck@ == old(state).deck@.skip(d)
        }),
        final(state).cards_wf(),
        final(state).players_state@ == old(state).players_state@,
        final(state).current_player == old(state).current_player,
        final(state).stage == old(state).stage,
        final(state).button == old(state).button,
        final(state).from_action == old(state).from_action,
        final(state).action_list@ == old(state).action_list@,
        final(state).legal_actions@ == old(state).legal_actions@,
        final(state).pot == old(state).pot,
        final(state).min_bet == old(state).min_bet,
        final(state).final_state == old(state).final_state,
        final(state).status == old(state).status,
{
    let ghost deck0 = state.deck@;
    let ghost pub0 = state.public_cards@;
    let mut k: usize = 0;
    let ghost d = min_i(min_i(n_deal as int, deck0.len() as int), 5 - pub0.len());
    while k < n_deal && state.deck.len() > 0 && state.public_cards.len() < 5
        invariant
            k <= n_deal,
            k as int <= d || k as int == d,
            k <= d,
            state.public_cards@ == pub0 + deck0.take(k as int),
            state.deck@ == deck0.skip(k as int),
            state.cards_wf(),
            state.players_state@ == old(state).players_state@,
            state.current_player == old(state).current_player,
            state.stage == old(state).stage,
            state.button == old(state).button,
            state.from_action == old(state).from_action,
            state.action_list@ == old(state).action_list@,
            state.legal_actions@ == old(state).legal_actions@,
            state.pot == old(state).pot,
            state.min_bet == old(state).min_bet,
            state.final_state == old(state).final_state,
            state.status == old(state).status,
        decreases n_deal - k,
    {
        let c = state.deck.remove(0);
        state.public_cards.push(c);
        proof {
            assert(deck0.skip(k as int)[0] == deck0[k as int]);
            assert(state.public_cards@ =~= pub0 + deck0.take(k + 1));
            assert(state.deck@ =~= deck0.skip(k + 1));
        }
        k = k + 1;
    }
    proof {
        assert(k as int == d);
    }
}

// ------------------------------------------------------------------
// Stage advancement.
// ------------------------------------------------------------------

/// The board grew only by cards drawn from the front of the deck, and
/// never by more cards than the deck held.
pub open spec fn deck_advanced(s0: State, s1: State) -> bool {
    exists|d: int|
        0 <= d <= s0.deck@.len() && s1.public_cards@ == s0.public_cards@ + (
        #[trigger] s0.deck@.take(d)) && s1.deck@ == s0.deck@.skip(d)
}

/// Drawing from the front twice is drawing from the front once.
proof fn lemma_deck_advanced_trans(s0: State, s1: State, s2: State)
    requires
        deck_advanced(s0, s1),
        deck_advanced(s1, s2),
    ensures
        deck_advanced(s0, s2),
{
    let d1 = choose|d: int|
        0 <= d <= s0.deck@.len() && s1.public_cards@ == s0.public_cards@ + (
        #[trigger] s0.deck@.take(d)) && s1.deck@ == s0.deck@.skip(d);
    let d2 = choose|d: int|
        0 <= d <= s1.deck@.len() && s2.public_cards@ == s1.public_cards@ + (
        #[trigger] s1.deck@.take(d)) && s2.deck@ == s1.deck@.skip(d);
    assert(s2.public_cards@ =~= s0.public_cards@ + s0.deck@.take(d1 + d2));
    assert(s2.deck@ =~= s0.deck@.skip(d1 + d2));
}

/// The deck and board did not move at all.
proof fn lemma_deck_advanced_refl(s0: State, s1: State)
    requires
        s1.public_cards@ == s0.public_cards@,
        s1.deck@ == s0.deck@,
    ensures
        deck_advanced(s0, s1),
{
    assert(s1.public_cards@ =~= s0.public_cards@ + s0.deck@.take(0));
    assert(s1.deck@ =~= s0.deck@.skip(0));
}

/// Clear every seat's street record for the new street.
#[verifier::loop_isolation(false)]
fn clear_street(players: &mut Vec<PlayerState>)
    ensures
        final(players)@.len() == old(players)@.len(),
        forall|i: int|
            0 <= i < old(players)@.len() ==> #[trigger] final(players)@[i] == (PlayerState {
                last_stage_action: None,
                ..old(players)@[i]
            }),
        sum_chips(final(players)@) == sum_chips(old(players)@),
        sum_committed(final(players)@) == sum_committed(old(players)@),
{
    let ghost orig = old(players)@;
    let n = players.len();
    let mut i: usize = 0;
    while i < n
        invariant
            players@.len() == n,
            i <= n,
            forall|j: int| i <= j < n ==> #[trigger] players@[j] == orig[j],
            forall|j: int|
                0 <= j < i ==> #[trigger] players@[j] == (PlayerState {
                    last_stage_action: None,
                    ..orig[j]
                }),
            sum_chips(players@) == sum_chips(orig),
            sum_committed(players@) == sum_committed(orig),
        decreases n - i,
    {
        let mut p = players[i];
        p.last_stage_action = None;
        proof {
            lemma_sums_update(players@, i as int, p);
        }
        players[i] = p;
        i = i + 1;
    }
}

/// The frame a stage step leaves untouched: the seats may change their
/// chips and liveness but keep their identity, hole cards and count;
/// the log, the button and the chip total stay; the board only grows
/// from the deck; the stage only moves forward.
pub open spec fn step_frame(s0: State, s1: State) -> bool {
    &&& s1.players_state@.len() == s0.players_state@.len()
    &&& (forall|i: int|
        0 <= i < s0.players_state@.len() ==> (#[trigger] s1.players_state@[i]).hand
            == s0.players_state@[i].hand && s1.players_state@[i].player
            == s0.players_state@[i].player)
    &&& (forall|i: int|
        0 <= i < s0.players_state@.len() && (#[trigger] s1.players_state@[i]).active
            ==> s0.players_state@[i].active)
    &&& (forall|i: int|
        0 <= i < s0.players_state@.len() ==> (#[trigger] s1.players_state@[i]).stake
            == s0.players_state@[i].stake)
    &&& sum_chips(s1.players_state@) == sum_chips(s0.players_state@)
    &&& deck_advanced(s0, s1)
    &&& s1.stage.index() >= s0.stage.index()
    &&& s1.button == s0.button
    &&& s1.action_list@ == s0.action_list@
    &&& s1.from_action == s0.from_action
    &&& s1.status == s0.status
    &&& (s0.final_state ==> s1.final_state)
}

/// Deal every remaining community card and settle the hand through the
/// side-pot resolver.
fn runout_and_showdown(state: &mut State)
    requires
        old(state).seats_wf(),
        old(state).cards_wf(),
        old(state).chips_wf(),
    ensures
        final(state).wf_core(),
        final(state).final_state,
        final(state).stage == Stage::Showdown,
        final(state).public_cards@.len() == min_i(
            5,
            old(state).public_cards@.len() as int + old(state).deck@.len() as int,
        ),
        settles(
            committed_seats(old(state).players_state@),
            final(state).public_cards@,
            final(state).players_state@,
        ),
        step_frame(*old(state), *final(state)),
        final(state).pot == old(state).pot,
        final(state).min_bet == old(state).min_bet,
{
    let ghost s0 = *state;
    let missing = 5 - state.public_cards.len();
    deal_community(state, missing);
    let ghost s1 = *state;
    proof {
        assert(deck_advanced(s0, s1));
    }
    state.stage = Stage::Showdown;
    proof {
        assert(state.board_wf());
    }
    state.update_range_indices();
    let ghost s2 = *state;
    resolve_pots(state);
    proof {
        assert(forall|i: int|
            0 <= i < state.players_state@.len() ==> (#[trigger] state.players_state@[i]).hand
                == s2.players_state@[i].hand && state.players_state@[i].range_idx
                == s2.players_state@[i].range_idx && state.players_state@[i].stake
                == s2.players_state@[i].stake);
        assert(state.buckets_wf());
        assert(deck_advanced(s0, *state)) by {
            lemma_deck_advanced_refl(s1, *state);
            lemma_deck_advanced_trans(s0, s1, *state);
        }
        // Settlement reads nothing the deal or the bucket refresh
        // touched, so it speaks of the seats as they entered.
        assert forall|i: int|
            0 <= i < s0.players_state@.len() implies same_for_settlement(
            #[trigger] committed_seats(s2.players_state@)[i],
            committed_seats(s0.players_state@)[i],
        ) by {}
        lemma_settles_transfer(
            committed_seats(s2.players_state@),
            committed_seats(s0.players_state@),
            state.public_cards@,
            state.players_state@,
        );
    }
}

/// Conclude the betting round: commit the street, move the stage one
/// step forward, deal the street's community cards, refresh the
/// abstraction buckets, and either hand the turn to the first live,
/// funded seat clockwise of the button or run the hand out to the
/// showdown when no further betting is possible.
#[verifier::loop_isolation(false)]
#[verifier::rlimit(60)]
fn advance_stage(state: &mut State)
    requires
        old(state).seats_wf(),
        old(state).cards_wf(),
        old(state).board_wf(),
        old(state).chips_wf(),
        !old(state).final_state,
        old(state).stage != Stage::Showdown,
    ensures
        final(state).wf_core(),
        step_frame(*old(state), *final(state)),
        final(state).stage.index() > old(state).stage.index(),
        final(state).final_state ==> final(state).stage == Stage::Showdown,
        !final(state).final_state ==> final(state).min_bet == 0,
        final(state).public_cards@.len() == min_i(
            final(state).stage.board_size(),
            old(state).public_cards@.len() as int + old(state).deck@.len() as int,
        ),
        (final(state).final_state <==> (old(state).stage == Stage::River || count_active(
            old(state).players_state@,
        ) <= 1 || count_eligible(old(state).players_state@) <= 1)),
        !final(state).final_state ==> final(state).stage.index() == old(state).stage.index() + 1,
        !final(state).final_state ==> first_eligible_from(
            final(state).players_state@,
            old(state).button as int,
            final(state).current_player as int,
        ),
        final(state).final_state ==> settles(
            committed_seats(old(state).players_state@),
            final(state).public_cards@,
            final(state).players_state@,
        ),
{
    let ghost s0 = *state;
    commit_bets(&mut state.players_state);
    clear_street(&mut state.players_state);
    state.min_bet = 0;
    let next = state.stage.next();
    state.stage = next;
    let ghost s1 = *state;
    proof {
        lemma_deck_advanced_refl(s0, s1);
        assert forall|j: int| 0 <= j < s0.players_state@.len() implies {
            let p0 = s0.players_state@[j];
            let p1 = #[trigger] s1.players_state@[j];
            &&& p1.player == p0.player
            &&& p1.hand == p0.hand
            &&& p1.active == p0.active
            &&& p1.stake == p0.stake
            &&& p1.range_idx == p0.range_idx
        } by {}
        assert(s1.seats_wf());
        assert(s1.cards_wf());
        assert(s1.chips_wf());
        lemma_counts_congruent(s0.players_state@, s1.players_state@);
    }

    if matches!(state.stage, Stage::Showdown) {
        state.update_range_indices();
        let ghost s2 = *state;
        resolve_pots(state);
        proof {
            assert(forall|i: int|
                0 <= i < state.players_state@.len() ==> (#[trigger] state.players_state@[i]).hand
                    == s2.players_state@[i].hand && state.players_state@[i].range_idx
                    == s2.players_state@[i].range_idx && state.players_state@[i].stake
                    == s2.players_state@[i].stake);
            assert(state.buckets_wf());
            lemma_deck_advanced_refl(s1, *state);
            lemma_deck_advanced_trans(s0, s1, *state);
            assert forall|i: int|
                0 <= i < s0.players_state@.len() implies same_for_settlement(
                #[trigger] committed_seats(s2.players_state@)[i],
                committed_seats(s0.players_state@)[i],
            ) by {}
            lemma_settles_transfer(
                committed_seats(s2.players_state@),
                committed_seats(s0.players_state@),
                state.public_cards@,
                state.players_state@,
            );
        }
        return ;
    }

    let to_deal: usize = match state.stage {
        Stage::Flop => 3,
        Stage::Turn => 1,
        Stage::River => 1,
        _ => 0,
    };
    proof {
        // The street's deal tops the board up to the new stage's full
        // size, deck permitting.
        assert(to_deal as int == state.stage.board_size() - s0.stage.board_size());
        assert(s1.public_cards@.len() <= s0.stage.board_size());
    }
    deal_community(state, to_deal);
    state.update_range_indices();
    let ghost s2 = *state;
    proof {
        lemma_deck_advanced_trans(s0, s1, s2);
        assert(state.board_wf());
        assert forall|i: int| 0 <= i < s1.players_state@.len() implies (#[trigger] s2.players_state@[i]).active == s1.players_state@[i].active
            && s2.players_state@[i].stake == s1.players_state@[i].stake by {}
        lemma_counts_congruent(s1.players_state@, s2.players_state@);
    }

    let n = state.players_state.len();
    let mut actives: usize = 0;
    let mut funded: usize = 0;
    let mut i: usize = 0;
    while i < n
        invariant
            i <= n,
            n == state.players_state@.len(),
            *state == s2,
            actives <= i,
            funded <= i,
            actives as int == count_active(state.players_state@.take(i as int)),
            funded as int == count_eligible(state.players_state@.take(i as int)),
        decreases n - i,
    {
        proof {
            assert(state.players_state@.take(i + 1) =~= state.players_state@.take(
                i as int,
            ).push(state.players_state@[i as int]));
            assert(state.players_state@.take(i + 1).drop_last() =~= state.players_state@.take(
                i as int,
            ));
        }
        if state.players_state[i].active {
            actives = actives + 1;
        }
        if state.players_state[i].active && state.players_state[i].stake > 0 {
            funded = funded + 1;
        }
        i = i + 1;
    }
    proof {
        assert(s2.players_state@.take(n as int) =~= s2.players_state@);
    }

    if actives <= 1 || funded <= 1 {
        runout_and_showdown(state);
        proof {
            lemma_deck_advanced_trans(s0, s2, *state);
            assert(s2.public_cards@.len() + s2.deck@.len() == s0.public_cards@.len()
                + s0.deck@.len());
            assert forall|i: int|
                0 <= i < s0.players_state@.len() implies same_for_settlement(
                #[trigger] committed_seats(s2.players_state@)[i],
                committed_seats(s0.players_state@)[i],
            ) by {}
            lemma_settles_transfer(
                committed_seats(s2.players_state@),
                committed_seats(s0.players_state@),
                state.public_cards@,
                state.players_state@,
            );
        }
        return ;
    }

    proof {
        // The street's deal topped the board up to the new stage's
        // size, deck permitting.
        assert(s2.public_cards@.len() as int == min_i(
            s2.stage.board_size(),
            s0.public_cards@.len() as int + s0.deck@.len() as int,
        )) by {
            if s0.public_cards@.len() < s0.stage.board_size() {
                assert(s0.deck@.len() == 0);
            }
        }
    }
    match find_next_actor(&state.players_state, state.button) {
        Some(k) => {
            state.current_player = k;
            proof {
                lemma_deck_advanced_refl(s2, *state);
                lemma_deck_advanced_trans(s0, s2, *state);
            }
        },
        None => {
            proof {
                lemma_no_actor_anywhere(s2.players_state@, s2.button as int);
                lemma_count_eligible_zero(s2.players_state@);
            }
            runout_and_showdown(state);
            proof {
                lemma_deck_advanced_trans(s0, s2, *state);
                assert(s2.public_cards@.len() + s2.deck@.len() == s0.public_cards@.len()
                    + s0.deck@.len());
                assert forall|i: int|
                    0 <= i < s0.players_state@.len() implies same_for_settlement(
                    #[trigger] committed_seats(s2.players_state@)[i],
                    committed_seats(s0.players_state@)[i],
                ) by {}
                lemma_settles_transfer(
                    committed_seats(s2.players_state@),
                    committed_seats(s0.players_state@),
                    state.public_cards@,
                    state.players_state@,
                );
            }
        },
    }
}

impl State {
    /// Apply one action on behalf of the seat on turn and return the
    /// successor state; the prior state stays valid.  The submitted
    /// action is clamped, never rejected: the resolved kind and amount
    /// land in the appended log record, which `from_action` mirrors.
    /// A state that is already settled (or was marked rejected) comes
    /// back equivalent and unchanged.  While the round continues the
    /// turn passes to the next live funded seat clockwise; when the
    /// action concludes it, the stage moves one street forward with
    /// its cards dealt from the deck front (the board reaching the
    /// street's size, deck permitting), the first live funded seat
    /// clockwise of the button acts next, and a hand left without two
    /// contesting seats -- or past the river -- runs out and settles
    /// by the side-pot ledger over the seats as the action left them.
    /// Chips are conserved by every transition, hole cards never
    /// change, a folded seat never returns, the stage only moves
    /// forward, and a settled successor's rewards sum to zero.
    #[verifier::loop_isolation(false)]
    #[verifier::rlimit(100)]
    pub fn apply_action(&self, action: Action) -> (next: State)
        requires
            self.wf(),
        ensures
            next.wf(),
            (self.final_state || self.status != StateStatus::Valid) ==> next.equiv(*self),
            sum_chips(next.players_state@) == sum_chips(self.players_state@),
            next.final_state ==> sum_rewards(next.players_state@) == 0,
            next.players_state@.len() == self.players_state@.len(),
            forall|i: int|
                0 <= i < self.players_state@.len() ==> (#[trigger] next.players_state@[i]).hand
                    == self.players_state@[i].hand,
            forall|i: int|
                0 <= i < self.players_state@.len() && (#[trigger] next.players_state@[i]).active
                    ==> self.players_state@[i].active,
            deck_advanced(*self, next),
            next.stage.index() >= self.stage.index(),
            next.button == self.button,
            next.status == self.status,
            !(self.final_state || self.status != StateStatus::Valid) ==> {
                &&& next.action_list@.len() == self.action_list@.len() + 1
                &&& (forall|i: int|
                    0 <= i < self.action_list@.len() ==> (#[trigger] next.action_list@[i]).equiv(
                        self.action_list@[i],
                    ))
                &&& next.action_list@.last().player == self.current_player
                &&& next.action_list@.last().stage == self.stage
                &&& next.action_list@.last().action.action == action.action
                &&& next.action_list@.last().action.amount as int == resolved_amount(*self, action)
                &&& next.action_list@.last().legal_actions@ == legal_actions_spec(*self)
                &&& (match next.from_action {
                    Some(rec) => rec.equiv(next.action_list@.last()),
                    None => false,
                })
            },
            // A transition that settles the hand pays it out by the
            // side-pot ledger over the seats as the action left them.
            (!(self.final_state || self.status != StateStatus::Valid) && next.final_state)
                ==> settles(
                committed_seats(players_after_effect(*self, action)),
                next.public_cards@,
                next.players_state@,
            ),
            !(self.final_state || self.status != StateStatus::Valid) ==> {
                &&& (!hand_advances(*self, action) ==> {
                    &&& next.stage == self.stage
                    &&& next.public_cards@ == self.public_cards@
                    &&& next.deck@ == self.deck@
                    &&& !next.final_state
                    &&& first_eligible_from(
                        next.players_state@,
                        self.current_player as int,
                        next.current_player as int,
                    )
                })
                &&& (hand_advances(*self, action) ==> {
                    &&& next.public_cards@.len() == min_i(
                        next.stage.board_size(),
                        self.public_cards@.len() as int + self.deck@.len() as int,
                    )
                    &&& (next.final_state <==> (self.stage == Stage::River || count_active(
                        players_after_effect(*self, action),
                    ) <= 1 || count_eligible(players_after_effect(*self, action)) <= 1))
                    &&& (!next.final_state ==> {
                        &&& next.stage.index() == self.stage.index() + 1
                        &&& next.min_bet == 0
                        &&& first_eligible_from(
                            next.players_state@,
                            self.button as int,
                            next.current_player as int,
                        )
                    })
                })
                &&& next.players_state@[self.current_player as int].stake as int
                    == self.players_state@[self.current_player as int].stake - action_delta(
                    *self,
                    action,
                )
                &&& (forall|i: int|
                    0 <= i < self.players_state@.len() && i != self.current_player as int
                        ==> (#[trigger] next.players_state@[i]).stake
                        == self.players_state@[i].stake)
                &&& (action.action == ActionEnum::Fold ==> !next.players_state@[
                    self.current_player as int].active)
            },
    {
        match self.status {
            StateStatus::Valid => {},
            _ => {
                let r = self.clone();
                proof {
                    lemma_deck_advanced_refl(*self, r);
                }
                return r;
            },
        }
        if self.final_state {
            let r = self.clone();
            proof {
                lemma_deck_advanced_refl(*self, r);
            }
            return r;
        }

        let snapshot = copy_action_kinds(&self.legal_actions);
        let mut st = self.clone();
        let ghost pre = st;
        let amt = apply_action_effect(&mut st, action);
        let ghost post_effect = st;
        proof {
            // The effect leaves identities, hands and buckets in place.
            assert forall|j: int| 0 <= j < pre.players_state@.len() implies {
                let p0 = pre.players_state@[j];
                let p1 = #[trigger] post_effect.players_state@[j];
                &&& p1.player == p0.player
                &&& p1.hand == p0.hand
                &&& p1.range_idx == p0.range_idx
                &&& (p1.active ==> p0.active)
            } by {}
            assert(st.seats_wf());
            assert(st.cards_wf());
            assert(st.board_wf());
            assert(st.buckets_wf());
            assert(resolved_amount(pre, action) == resolved_amount(*self, action));
        }
        let record = ActionRecord {
            player: st.current_player,
            action: Action::new(action.action, amt),
            stage: st.stage,
            legal_actions: snapshot,
        };
        st.from_action = Some(record.clone());
        st.action_list.push(record);
        let ghost post_log = st;
        proof {
            lemma_deck_advanced_refl(*self, post_log);
            // The seats now stand exactly as the effect specifies.
            lemma_sum_chips_part(self.players_state@, self.current_player as int);
            assert(st.players_state@ =~= players_after_effect(*self, action));
        }

        let phase: RoundPhase = if is_round_over(&st) {
            RoundPhase::Over(RoundOver::new())
        } else {
            match find_next_actor(&st.players_state, st.current_player) {
                Some(k) => {
                    let in_round = count_active_exec(&st.players_state);
                    RoundPhase::Awaiting(
                        AwaitingAction::new(k, BettingRoundContext::new(st.min_bet, in_round, k)),
                    )
                },
                None => RoundPhase::Over(RoundOver::new()),
            }
        };
        match phase {
            RoundPhase::Awaiting(a) => {
                st.current_player = a.player_to_act_idx;
                proof {
                    lemma_deck_advanced_refl(post_log, st);
                    lemma_deck_advanced_trans(*self, post_log, st);
                }
            },
            RoundPhase::Over(_) => {
                advance_stage(&mut st);
                proof {
                    lemma_deck_advanced_trans(*self, post_log, st);
                }
            },
            RoundPhase::Done(_) => {
                proof {
                    lemma_deck_advanced_refl(post_log, st);
                    lemma_deck_advanced_trans(*self, post_log, st);
                }
            },
        }
        let la = legal_actions(&st);
        st.legal_actions = la;
        st
    }
}

// ------------------------------------------------------------------
// Construction.
// ------------------------------------------------------------------

/// The blind a seat posts at the deal: the small blind one seat past
/// the button, the big blind two past, nothing elsewhere.
pub open spec fn initial_bet(seat: int, button: int, n: int, sb: int, bb: int) -> int {
    if seat == (button + 1) % n {
        sb
    } else if seat == (button + 2) % n {
        bb
    } else {
        0
    }
}

/// Which cards a seat is dealt: seats receive two cards each from the
/// front of the deck, in clockwise order starting one past the button.
pub open spec fn deal_pos(seat: int, button: int, n: int) -> int {
    (seat - button - 1) % n
}

/// Distinct seats are dealt from distinct positions.
proof fn lemma_deal_pos_injective(button: int, n: int, i: int, j: int)
    requires
        1 <= n,
        0 <= i < n,
        0 <= j < n,
        i != j,
    ensures
        deal_pos(i, button, n) != deal_pos(j, button, n),
        0 <= deal_pos(i, button, n) < n,
{
    let di = (i - button - 1) % n;
    let dj = (j - button - 1) % n;
    vstd::arithmetic::div_mod::lemma_fundamental_div_mod(i - button - 1, n);
    vstd::arithmetic::div_mod::lemma_fundamental_div_mod(j - button - 1, n);
    vstd::arithmetic::div_mod::lemma_mod_division_less_than_divisor(i - button - 1, n);
    vstd::arithmetic::div_mod::lemma_mod_division_less_than_divisor(j - button - 1, n);
    if di == dj {
        let qi = (i - button - 1) / n;
        let qj = (j - button - 1) / n;
        assert(n * qi - n * qj == n * (qi - qj)) by (nonlinear_arith);
        assert(i - j == n * (qi - qj));
        assert(qi == qj) by (nonlinear_arith)
            requires
                i - j == n * (qi - qj),
                0 - n < i - j < n,
                n >= 1,
        ;
        assert(false);
    }
}

/// Why construction fails, in the order the checks run; `None` when
/// every check passes.
pub open spec fn construct_error(
    n_players: int,
    button: int,
    sb: int,
    bb: int,
    stake: int,
    deck_len: int,
) -> Option<InitStateError> {
    if n_players < 2 {
        Some(InitStateError::NotEnoughPlayers)
    } else if button >= n_players {
        Some(InitStateError::InvalidButton)
    } else if deck_len < 2 * n_players {
        Some(InitStateError::DeckTooSmall)
    } else if sb <= 0 {
        Some(InitStateError::InvalidSmallBlind)
    } else if bb < sb {
        Some(InitStateError::InvalidBlindOrder)
    } else if stake < bb {
        Some(InitStateError::StakeTooSmall)
    } else if n_players * stake >= 0x8000_0000_0000_0000 {
        Some(InitStateError::TooManyChips)
    } else {
        None
    }
}

impl State {
    /// Deal a hand from a caller-supplied deck.  The inputs are
    /// validated (enough players, the button among them, two cards per
    /// player in the deck, `0 < small blind <= big blind <= stake`, and
    /// chips that fit the accounting range); each failed check names
    /// its error.  On success the blinds are posted, the hole cards
    /// dealt clockwise from the button, and the seat after the big
    /// blind is first to act; should the blinds already leave no two
    /// funded seats, the hand runs out to the showdown at once.
    #[verifier::loop_isolation(false)]
    #[verifier::rlimit(100)]
    pub fn from_deck(
        n_players: usize,
        button: usize,
        sb: u64,
        bb: u64,
        stake: u64,
        deck: Vec<Card>,
    ) -> (r: Result<State, InitStateError>)
        requires
            all_cards_wf(deck@),
        ensures
            ({
                let err = construct_error(
                    n_players as int,
                    button as int,
                    sb as int,
                    bb as int,
                    stake as int,
                    deck@.len() as int,
                );
                match r {
                    Result::Err(e) => err == Some(e),
                    Result::Ok(s) => {
                        &&& err is None
                        &&& s.wf()
                        &&& s.button == button
                        &&& s.players_state@.len() == n_players
                        &&& s.pot == sb + bb
                        &&& s.status == StateStatus::Valid
                        &&& s.action_list@.len() == 0
                        &&& s.from_action is None
                        &&& sum_chips(s.players_state@) == n_players * stake
                        &&& (forall|seat: int|
                            0 <= seat < n_players ==> (#[trigger] s.players_state@[seat]).hand == (
                            deck@[2 * deal_pos(seat, button as int, n_players as int)],
                            deck@[2 * deal_pos(seat, button as int, n_players as int) + 1],
                            ))
                        &&& (s.final_state <==> (n_players == 2 && stake == sb))
                        &&& (!s.final_state ==> first_eligible_from(
                            s.players_state@,
                            (button as int + 2) % (n_players as int),
                            s.current_player as int,
                        ))
                        &&& (stake > bb ==> s.current_player as int == (button as int + 3) % (
                        n_players as int))
                        &&& (!s.final_state ==> {
                            &&& s.stage == Stage::Preflop
                            &&& s.public_cards@.len() == 0
                            &&& s.deck@ == deck@.skip(2 * n_players)
                            &&& s.min_bet == bb
                            &&& (forall|seat: int|
                                0 <= seat < n_players ==> {
                                    let p = #[trigger] s.players_state@[seat];
                                    &&& p.bet_chips as int == initial_bet(
                                        seat,
                                        button as int,
                                        n_players as int,
                                        sb as int,
                                        bb as int,
                                    )
                                    &&& p.pot_chips == 0
                                    &&& p.stake as int == stake - initial_bet(
                                        seat,
                                        button as int,
                                        n_players as int,
                                        sb as int,
                                        bb as int,
                                    )
                                    &&& p.active
                                })
                        })
                    },
                }
            }),
    {
        if n_players < 2 {
            return Err(InitStateError::NotEnoughPlayers);
        }
        if button >= n_players {
            return Err(InitStateError::InvalidButton);
        }
        if deck.len() / 2 < n_players {
            proof {
                assert(deck@.len() < 2 * n_players) by (nonlinear_arith)
                    requires
                        deck@.len() as int / 2 < n_players as int,
                        deck@.len() >= 0,
                ;
            }
            return Err(InitStateError::DeckTooSmall);
        }
        proof {
            assert(deck@.len() >= 2 * n_players) by (nonlinear_arith)
                requires
                    deck@.len() as int / 2 >= n_players as int,
                    deck@.len() >= 0,
            ;
        }
        if sb == 0 {
            return Err(InitStateError::InvalidSmallBlind);
        }
        if bb < sb {
            return Err(InitStateError::InvalidBlindOrder);
        }
        if stake < bb {
            return Err(InitStateError::StakeTooSmall);
        }
        proof {
            assert((n_players as int) * (stake as int)
                < 0x1_0000_0000_0000_0000_0000_0000_0000_0000) by (nonlinear_arith)
                requires
                    0 <= n_players as int <= 0xFFFF_FFFF_FFFF_FFFF,
                    0 <= stake as int <= 0xFFFF_FFFF_FFFF_FFFF,
            ;
        }
        if (n_players as u128) * (stake as u128) >= 0x8000_0000_0000_0000u128 {
            return Err(InitStateError::TooManyChips);
        }
        proof {
            assert(sb as int + bb as int <= (n_players as int) * (stake as int)) by (
            nonlinear_arith)
                requires
                    2 <= n_players as int,
                    0 <= sb as int <= stake as int,
                    0 <= bb as int <= stake as int,
            ;
        }

        let n = n_players;
        let sb_seat = (button + 1) % n;
        let bb_seat = (button + 2) % n;
        proof {
            assert(sb_seat != bb_seat) by {
                vstd::arithmetic::div_mod::lemma_add_mod_noop(button as int + 1, 1, n as int);
                vstd::arithmetic::div_mod::lemma_small_mod(1nat, n as nat);
                assert((button as int + 2) % (n as int) == ((button as int + 1) % (n as int) + 1) % (
                n as int));
                if sb_seat == bb_seat {
                    if sb_seat as int + 1 < n {
                        vstd::arithmetic::div_mod::lemma_small_mod(
                            (sb_seat + 1) as nat,
                            n as nat,
                        );
                    } else {
                        vstd::arithmetic::div_mod::lemma_mod_self_0(n as int);
                    }
                }
            }
        }

        let mut players: Vec<PlayerState> = Vec::new();
        let mut seat: usize = 0;
        while seat < n
            invariant
                seat <= n,
                2 <= n == n_players,
                button < n,
                sb_seat as int == (button as int + 1) % (n as int),
                bb_seat as int == (button as int + 2) % (n as int),
                sb_seat != bb_seat,
                0 < sb <= bb <= stake,
                (n as int) * (stake as int) < 0x8000_0000_0000_0000,
                deck@.len() >= 2 * n,
                all_cards_wf(deck@),
                players@.len() == seat,
                forall|s2: int|
                    0 <= s2 < seat ==> {
                        let p = #[trigger] players@[s2];
                        &&& p.player == s2
                        &&& p.hand == (
                            deck@[2 * deal_pos(s2, button as int, n as int)],
                            deck@[2 * deal_pos(s2, button as int, n as int) + 1],
                        )
                        &&& p.bet_chips as int == initial_bet(
                            s2,
                            button as int,
                            n as int,
                            sb as int,
                            bb as int,
                        )
                        &&& p.pot_chips == 0
                        &&& p.stake as int == stake - initial_bet(
                            s2,
                            button as int,
                            n as int,
                            sb as int,
                            bb as int,
                        )
                        &&& p.reward == 0
                        &&& p.active
                        &&& p.last_stage_action is None
                    },
                sum_chips(players@) == seat * stake,
                sum_committed(players@) == (if sb_seat < seat {
                    sb as int
                } else {
                    0int
                }) + (if bb_seat < seat {
                    bb as int
                } else {
                    0int
                }),
            decreases n - seat,
        {
            let pos = (seat + n - button - 1) % n;
            proof {
                vstd::arithmetic::div_mod::lemma_mod_add_multiples_vanish(
                    seat as int - button as int - 1,
                    n as int,
                );
                assert(pos as int == deal_pos(seat as int, button as int, n as int));
                assert(2 * pos + 1 < deck@.len());
            }
            let chips: u64 = if seat == sb_seat {
                sb
            } else if seat == bb_seat {
                bb
            } else {
                0
            };
            let p = PlayerState {
                player: seat,
                hand: (deck[2 * pos], deck[2 * pos + 1]),
                bet_chips: chips,
                pot_chips: 0,
                stake: stake - chips,
                reward: 0,
                active: true,
                range_idx: 0,
                last_stage_action: None,
            };
            proof {
                lemma_sums_push(players@, p);
                assert((seat + 1) * (stake as int) == seat * (stake as int) + stake) by (
                nonlinear_arith);
                assert(seat * (stake as int) <= (n as int) * (stake as int)) by (nonlinear_arith)
                    requires
                        0 <= seat as int <= n as int,
                        stake as int >= 0,
                ;
            }
            players.push(p);
            seat = seat + 1;
        }

        let mut rest: Vec<Card> = Vec::new();
        let mut j: usize = 2 * n;
        while j < deck.len()
            invariant
                2 * n <= j <= deck@.len(),
                all_cards_wf(deck@),
                rest@ == deck@.subrange(2 * n, j as int),
            decreases deck@.len() - j,
        {
            rest.push(deck[j]);
            proof {
                assert(rest@ =~= deck@.subrange(2 * n, j + 1));
            }
            j = j + 1;
        }
        proof {
            assert(rest@ =~= deck@.skip(2 * n));
        }

        let mut st = State {
            current_player: bb_seat,
            players_state: players,
            public_cards: Vec::new(),
            stage: Stage::Preflop,
            button,
            from_action: None,
            action_list: Vec::new(),
            legal_actions: Vec::new(),
            deck: rest,
            pot: sb + bb,
            min_bet: bb,
            final_state: false,
            status: StateStatus::Valid,
        };
        st.update_range_indices();

        match find_next_actor(&st.players_state, bb_seat) {
            Some(k) => {
                proof {
                    // An eligible seat exists, so the blinds left the
                    // hand playable.
                    if n == 2 && stake == sb {
                        assert(st.players_state@[k as int].stake == 0);
                    }
                    // With chips beyond the big blind at every seat,
                    // the very next seat can act: the classic first
                    // actor three past the button.
                    if stake > bb {
                        let ps = st.players_state@;
                        let nn = n as int;
                        let s1 = (bb_seat as int + 1) % nn;
                        assert(0 <= s1 < nn);
                        assert(elig_at(ps, bb_seat as int, 1)) by {
                            assert(ps[s1].active);
                            assert(ps[s1].stake as int == stake - initial_bet(
                                s1,
                                button as int,
                                nn,
                                sb as int,
                                bb as int,
                            ));
                            assert(initial_bet(s1, button as int, nn, sb as int, bb as int)
                                <= bb);
                        }
                        let d = choose|d: int|
                            1 <= d <= ps.len() && k as int == (bb_seat as int + d) % (
                            ps.len() as int) && (#[trigger] elig_at(ps, bb_seat as int, d)) && (
                            forall|e: int|
                                1 <= e < d ==> !(#[trigger] elig_at(ps, bb_seat as int, e)));
                        assert(d == 1);
                        vstd::arithmetic::div_mod::lemma_add_mod_noop(
                            button as int + 2,
                            1,
                            nn,
                        );
                        vstd::arithmetic::div_mod::lemma_small_mod(1nat, nn as nat);
                        assert(k as int == (button as int + 3) % nn);
                    }
                }
                st.current_player = k;
                let la = legal_actions(&st);
                st.legal_actions = la;
                Ok(st)
            },
            None => {
                proof {
                    // No seat can act: every seat posted its whole
                    // stake, which forces two players and stake == sb.
                    let ps = st.players_state@;
                    let nn = n as int;
                    let bbs = bb_seat as int;
                    assert forall|s2: int| 0 <= s2 < nn implies !eligible(ps[s2]) by {
                        let e = (s2 - bbs - 1) % nn;
                        let d = e + 1;
                        vstd::arithmetic::div_mod::lemma_add_mod_noop_right(
                            bbs + 1,
                            s2 - bbs - 1,
                            nn,
                        );
                        vstd::arithmetic::div_mod::lemma_small_mod(s2 as nat, nn as nat);
                        assert((bbs + d) % nn == s2);
                        assert(!elig_at(ps, bbs, d));
                    }
                    if n >= 3 {
                        let w: int = if 0 != sb_seat as int && 0 != bb_seat as int {
                            0
                        } else if 1 != sb_seat as int && 1 != bb_seat as int {
                            1
                        } else {
                            2
                        };
                        assert(w != sb_seat as int && w != bb_seat as int);
                        assert(ps[w].stake == stake);
                        assert(!eligible(ps[w]));
                        assert(false);
                    }
                    assert(!eligible(ps[sb_seat as int]));
                    assert(stake == sb);
                }
                runout_and_showdown(&mut st);
                let la = legal_actions(&st);
                st.legal_actions = la;
                Ok(st)
            },
        }
    }

    /// Deal a hand from the full 52-card deck shuffled by a seed.
    pub fn from_seed(n_players: usize, button: usize, sb: u64, bb: u64, stake: u64, seed: u64)
        -> (r: Result<State, InitStateError>)
        ensures
            ({
                let err = construct_error(
                    n_players as int,
                    button as int,
                    sb as int,
                    bb as int,
                    stake as int,
                    52,
                );
                match r {
                    Result::Err(e) => err == Some(e),
                    Result::Ok(s) => {
                        &&& err is None
                        &&& s.wf()
                        &&& s.button == button
                        &&& s.players_state@.len() == n_players
                        &&& s.pot == sb + bb
                        &&& s.status == StateStatus::Valid
                        &&& s.action_list@.len() == 0
                        &&& sum_chips(s.players_state@) == n_players * stake
                        &&& (forall|seat: int|
                            0 <= seat < n_players ==> (#[trigger] s.players_state@[seat]).hand == (
                            crate::card::shuffle_of(full_deck(), seed)[2 * deal_pos(
                                seat,
                                button as int,
                                n_players as int,
                            )],
                            crate::card::shuffle_of(full_deck(), seed)[2 * deal_pos(
                                seat,
                                button as int,
                                n_players as int,
                            ) + 1],
                            ))
                        &&& (!s.final_state ==> s.deck@ == crate::card::shuffle_of(full_deck(), seed).skip(
                            2 * n_players,
                        ))
                        &&& (forall|i: int|
                            0 <= i < n_players ==> (#[trigger] s.players_state@[i]).hand.0
                                != s.players_state@[i].hand.1)
                        &&& (forall|i: int, j: int|
                            0 <= i < j < n_players ==> {
                                let a = #[trigger] s.players_state@[i].hand;
                                let b = #[trigger] s.players_state@[j].hand;
                                a.0 != b.0 && a.0 != b.1 && a.1 != b.0 && a.1 != b.1
                            })
                    },
                }
            }),
    {
        let mut deck = Card::collect();
        let ghost full = deck@;
        shuffle_cards(&mut deck, seed);
        proof {
            lemma_permutation_keeps_wf(full, deck@);
        }
        let ghost sdeck = deck@;
        let r = State::from_deck(n_players, button, sb, bb, stake, deck);
        proof {
            // The shuffled full deck holds each card exactly once, so
            // every dealt hole card is distinct.
            lemma_full_deck_distinct();
            full_deck().lemma_multiset_has_no_duplicates();
            sdeck.lemma_multiset_has_no_duplicates_conv();
            if r is Ok {
                let st = r->Ok_0;
                let nn = n_players as int;
                assert forall|i: int|
                    0 <= i < nn implies (#[trigger] st.players_state@[i]).hand.0
                    != st.players_state@[i].hand.1 by {
                    vstd::arithmetic::div_mod::lemma_mod_division_less_than_divisor(
                        i - button - 1,
                        nn,
                    );
                }
                assert forall|i: int, j: int| 0 <= i < j < nn implies {
                    let a = #[trigger] st.players_state@[i].hand;
                    let b = #[trigger] st.players_state@[j].hand;
                    a.0 != b.0 && a.0 != b.1 && a.1 != b.0 && a.1 != b.1
                } by {
                    lemma_deal_pos_injective(button as int, nn, i, j);
                    lemma_deal_pos_injective(button as int, nn, j, i);
                }
            }
        }
        r
    }
}

// ------------------------------------------------------------------
// Laws.
// ------------------------------------------------------------------

/// Law: a settled hand is zero-sum.  Whatever actions led from a valid
/// deal to a final state, the seats' rewards cancel out exactly.
pub proof fn lemma_zero_sum_when_final(s: State)
    requires
        s.wf(),
        s.final_state,
    ensures
        sum_rewards(s.players_state@) == 0,
{
}

/// The action kinds open to the seat on turn.
pub fn legal_actions(state: &State) -> (r: Vec<ActionEnum>)
    requires
        (state.current_player as int) < state.players_state@.len(),
    ensures
        r@ == legal_actions_spec(*state),
{
    if state.final_state || matches!(state.stage, Stage::Showdown) {
        let r: Vec<ActionEnum> = Vec::new();
        assert(r@ =~= legal_actions_spec(*state));
        return r;
    }
    if state.players_state[state.current_player].stake == 0 {
        let r: Vec<ActionEnum> = Vec::new();
        assert(r@ =~= legal_actions_spec(*state));
        return r;
    }
    let mut r: Vec<ActionEnum> = Vec::new();
    r.push(ActionEnum::Fold);
    r.push(ActionEnum::CheckCall);
    r.push(ActionEnum::BetRaise);
    assert(r@ =~= legal_actions_spec(*state));
    r
}

} // verus!
