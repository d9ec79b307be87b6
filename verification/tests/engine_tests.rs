use pokers::action::{Action, ActionEnum};
use pokers::card::Card;
use pokers::game_logic::InitStateError;
use pokers::stage::Stage;
use pokers::state::{State, StateStatus};

fn c(rank: u8, suit: u8) -> Card {
    Card { rank, suit }
}

fn small_deck(n: usize) -> Vec<Card> {
    // Distinct cards, enough for n players plus a full board.
    let mut deck = Vec::new();
    let mut rank = 0u8;
    let mut suit = 0u8;
    for _ in 0..(2 * n + 5) {
        deck.push(c(rank, suit));
        suit += 1;
        if suit == 4 {
            suit = 0;
            rank += 1;
        }
    }
    deck
}

fn total_chips(s: &State) -> u64 {
    s.players_state
        .iter()
        .map(|p| p.bet_chips + p.pot_chips + p.stake)
        .sum()
}

fn sum_rewards(s: &State) -> i64 {
    s.players_state.iter().map(|p| p.reward).sum()
}

#[test]
fn construction_rejects_each_invalid_input() {
    let deck = Card::collect();
    assert!(matches!(
        State::from_deck(1, 0, 1, 2, 100, deck.clone()),
        Err(InitStateError::NotEnoughPlayers)
    ));
    assert!(matches!(
        State::from_deck(3, 3, 1, 2, 100, deck.clone()),
        Err(InitStateError::InvalidButton)
    ));
    assert!(matches!(
        State::from_deck(3, 0, 1, 2, 100, vec![c(0, 0), c(1, 1)]),
        Err(InitStateError::DeckTooSmall)
    ));
    assert!(matches!(
        State::from_deck(3, 0, 0, 2, 100, deck.clone()),
        Err(InitStateError::InvalidSmallBlind)
    ));
    assert!(matches!(
        State::from_deck(3, 0, 5, 2, 100, deck.clone()),
        Err(InitStateError::InvalidBlindOrder)
    ));
    assert!(matches!(
        State::from_deck(3, 0, 1, 2, 1, deck.clone()),
        Err(InitStateError::StakeTooSmall)
    ));
    assert!(matches!(
        State::from_deck(3, 0, 1, 2, u64::MAX / 2, deck),
        Err(InitStateError::TooManyChips)
    ));
}

#[test]
fn the_deal_posts_blinds_and_picks_the_first_actor() {
    let s = State::from_deck(3, 0, 5, 10, 1000, small_deck(3)).unwrap();
    assert!(!s.final_state);
    assert_eq!(s.stage, Stage::Preflop);
    assert_eq!(s.button, 0);
    // Small blind one past the button, big blind two past.
    assert_eq!(s.players_state[1].bet_chips, 5);
    assert_eq!(s.players_state[2].bet_chips, 10);
    assert_eq!(s.players_state[0].bet_chips, 0);
    assert_eq!(s.players_state[1].stake, 995);
    assert_eq!(s.pot, 15);
    assert_eq!(s.min_bet, 10);
    // First to act: the seat after the big blind.
    assert_eq!(s.current_player, 0);
    assert_eq!(
        s.legal_actions,
        vec![ActionEnum::Fold, ActionEnum::CheckCall, ActionEnum::BetRaise]
    );
    // Dealing order: the seat after the button got the first two cards.
    assert_eq!(s.players_state[1].hand.0, c(0, 0));
    assert_eq!(s.players_state[1].hand.1, c(0, 1));
    assert_eq!(s.players_state[2].hand.0, c(0, 2));
    assert_eq!(s.players_state[0].hand.0, c(1, 0));
}

#[test]
fn heads_up_fold_settles_the_hand_zero_sum() {
    let s = State::from_deck(2, 0, 1, 2, 100, small_deck(2)).unwrap();
    // Heads up the small blind (seat 1) acts first.
    assert_eq!(s.current_player, 1);
    let s2 = s.apply_action(Action::new(ActionEnum::Fold, 0));
    assert!(s2.final_state);
    assert_eq!(s2.players_state[0].reward, 1);
    assert_eq!(s2.players_state[1].reward, -1);
    assert_eq!(sum_rewards(&s2), 0);
    assert!(s2.players_state.iter().all(|p| !p.active));
    // The prior state is untouched.
    assert!(!s.final_state);
}

#[test]
fn chips_are_conserved_across_every_transition() {
    let mut s = State::from_deck(3, 0, 5, 10, 1000, small_deck(3)).unwrap();
    let total = total_chips(&s);
    assert_eq!(total, 3000);
    let script = [
        Action::new(ActionEnum::BetRaise, 40),
        Action::new(ActionEnum::CheckCall, 0),
        Action::new(ActionEnum::Fold, 0),
        Action::new(ActionEnum::CheckCall, 0),
        Action::new(ActionEnum::BetRaise, 100),
        Action::new(ActionEnum::CheckCall, 0),
        Action::new(ActionEnum::CheckCall, 0),
        Action::new(ActionEnum::CheckCall, 0),
        Action::new(ActionEnum::CheckCall, 0),
        Action::new(ActionEnum::CheckCall, 0),
    ];
    for a in script {
        if s.final_state {
            break;
        }
        s = s.apply_action(a);
        assert_eq!(total_chips(&s), total);
    }
    assert!(s.final_state);
    assert_eq!(sum_rewards(&s), 0);
}

#[test]
fn the_log_records_resolved_actions() {
    let s = State::from_deck(3, 0, 5, 10, 1000, small_deck(3)).unwrap();
    // Seat 0 raises to 40 total.
    let s2 = s.apply_action(Action::new(ActionEnum::BetRaise, 40));
    assert_eq!(s2.action_list.len(), 1);
    let rec = &s2.action_list[0];
    assert_eq!(rec.player, 0);
    assert_eq!(rec.stage, Stage::Preflop);
    assert_eq!(rec.action.action, ActionEnum::BetRaise);
    assert_eq!(rec.action.amount, 40);
    assert_eq!(s2.min_bet, 40);
    assert_eq!(s2.players_state[0].bet_chips, 40);
    // Seat 1 calls: 35 more chips on top of the posted small blind.
    let s3 = s2.apply_action(Action::new(ActionEnum::CheckCall, 0));
    let rec2 = &s3.action_list[1];
    assert_eq!(rec2.action.action, ActionEnum::CheckCall);
    assert_eq!(rec2.action.amount, 35);
    assert_eq!(s3.players_state[1].bet_chips, 40);
}

#[test]
fn a_raise_below_the_minimum_is_lifted_to_it() {
    let s = State::from_deck(3, 0, 5, 10, 1000, small_deck(3)).unwrap();
    let s2 = s.apply_action(Action::new(ActionEnum::BetRaise, 3));
    assert_eq!(s2.players_state[0].bet_chips, 10);
    assert_eq!(s2.min_bet, 10);
}

#[test]
fn a_raise_beyond_the_stake_becomes_an_all_in() {
    let s = State::from_deck(3, 0, 5, 10, 1000, small_deck(3)).unwrap();
    let s2 = s.apply_action(Action::new(ActionEnum::BetRaise, 50_000));
    assert_eq!(s2.players_state[0].bet_chips, 1000);
    assert_eq!(s2.players_state[0].stake, 0);
}

#[test]
fn terminal_states_absorb_further_actions() {
    let s = State::from_deck(2, 0, 1, 2, 100, small_deck(2)).unwrap();
    let done = s.apply_action(Action::new(ActionEnum::Fold, 0));
    assert!(done.final_state);
    let again = done.apply_action(Action::new(ActionEnum::BetRaise, 50));
    assert_eq!(again.final_state, done.final_state);
    assert_eq!(again.pot, done.pot);
    assert_eq!(again.action_list.len(), done.action_list.len());
    for (a, b) in again.players_state.iter().zip(done.players_state.iter()) {
        assert_eq!(a.reward, b.reward);
        assert_eq!(a.stake, b.stake);
        assert_eq!(a.pot_chips, b.pot_chips);
        assert!(!a.active);
    }
}

#[test]
fn a_short_deck_deals_gracefully() {
    // Exactly the hole cards, nothing for the board.
    let deck = small_deck(2)[..4].to_vec();
    let mut s = State::from_deck(2, 0, 1, 2, 100, deck).unwrap();
    let total = total_chips(&s);
    for _ in 0..12 {
        if s.final_state {
            break;
        }
        s = s.apply_action(Action::new(ActionEnum::CheckCall, 0));
        assert!(s.public_cards.is_empty());
        assert_eq!(total_chips(&s), total);
    }
    assert!(s.final_state);
    assert_eq!(sum_rewards(&s), 0);
}

#[test]
fn stake_equal_to_the_blinds_settles_at_the_deal() {
    let s = State::from_deck(2, 0, 2, 2, 2, small_deck(2)).unwrap();
    assert!(s.final_state);
    assert_eq!(s.stage, Stage::Showdown);
    assert_eq!(sum_rewards(&s), 0);
    assert_eq!(s.status, StateStatus::Valid);
}

#[test]
fn an_all_in_pair_runs_the_board_out() {
    let s = State::from_deck(2, 0, 1, 2, 100, small_deck(2)).unwrap();
    // Small blind shoves, big blind calls.
    let s2 = s.apply_action(Action::new(ActionEnum::BetRaise, 100));
    assert!(!s2.final_state);
    let s3 = s2.apply_action(Action::new(ActionEnum::CheckCall, 0));
    assert!(s3.final_state);
    assert_eq!(s3.public_cards.len(), 5);
    assert_eq!(s3.stage, Stage::Showdown);
    assert_eq!(sum_rewards(&s3), 0);
}

#[test]
fn from_seed_is_deterministic_and_valid() {
    let a = State::from_seed(4, 1, 5, 10, 500, 42).unwrap();
    let b = State::from_seed(4, 1, 5, 10, 500, 42).unwrap();
    for (pa, pb) in a.players_state.iter().zip(b.players_state.iter()) {
        assert_eq!(pa.hand.0, pb.hand.0);
        assert_eq!(pa.hand.1, pb.hand.1);
    }
    assert_eq!(total_chips(&a), 2000);
    let other = State::from_seed(4, 1, 5, 10, 500, 43).unwrap();
    let same_hands = a
        .players_state
        .iter()
        .zip(other.players_state.iter())
        .all(|(pa, pb)| pa.hand.0 == pb.hand.0 && pa.hand.1 == pb.hand.1);
    assert!(!same_hands);
}

#[test]
fn zero_sum_over_scripted_hands() {
    for seed in 0..20u64 {
        let mut s = State::from_seed(3, (seed % 3) as usize, 5, 10, 300, seed).unwrap();
        let mut step = 0u64;
        while !s.final_state && step < 60 {
            let kind = match (seed + step) % 4 {
                0 => ActionEnum::BetRaise,
                1 => ActionEnum::Fold,
                _ => ActionEnum::CheckCall,
            };
            // Raises always shove, so every scripted hand ends quickly.
            let amount = 1000 + seed;
            s = s.apply_action(Action::new(kind, amount));
            assert_eq!(total_chips(&s), 900);
            step += 1;
        }
        assert!(s.final_state);
        assert_eq!(sum_rewards(&s), 0);
    }
}

#[test]
fn a_seeded_deal_gives_distinct_hole_cards() {
    let s = State::from_seed(6, 2, 5, 10, 500, 7).unwrap();
    let mut seen: Vec<Card> = Vec::new();
    for p in &s.players_state {
        for card in [p.hand.0, p.hand.1] {
            assert!(!seen.contains(&card));
            seen.push(card);
        }
    }
    assert_eq!(seen.len(), 12);
}
