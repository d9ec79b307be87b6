use pokers::card::Card;
use pokers::pots::resolve_pots;
use pokers::stage::Stage;
use pokers::state::{PlayerState, State, StateStatus};

fn c(rank: u8, suit: u8) -> Card {
    Card { rank, suit }
}

fn seat(id: usize, hand: (Card, Card), pot_chips: u64) -> PlayerState {
    PlayerState {
        player: id,
        hand,
        bet_chips: 0,
        pot_chips,
        stake: 0,
        reward: 0,
        active: true,
        range_idx: 0,
        last_stage_action: None,
    }
}

/// Three seats went all-in preflop for 50, 100 and 200; the board and
/// the holdings make the short stack best, the middle stack second and
/// the deep stack worst, so each pot layer resolves on its own.
#[test]
fn side_pots_cap_each_stack_at_its_own_layer() {
    // Board: four low offsuit cards and a king.
    let board = vec![c(0, 2), c(5, 1), c(7, 3), c(9, 0), c(11, 1)];
    // Seat 0 (50): a pair of aces in the hole -- the best hand.
    // Seat 1 (100): a pair of kings with the board king -- second.
    // Seat 2 (200): low offsuit cards, king high -- worst.
    let players = vec![
        seat(0, (c(12, 0), c(12, 1)), 50),
        seat(1, (c(11, 0), c(1, 0)), 100),
        seat(2, (c(1, 1), c(3, 2)), 200),
    ];
    let mut st = State {
        current_player: 0,
        players_state: players,
        public_cards: board,
        stage: Stage::Showdown,
        button: 0,
        from_action: None,
        action_list: Vec::new(),
        legal_actions: Vec::new(),
        deck: Vec::new(),
        pot: 350,
        min_bet: 0,
        final_state: false,
        status: StateStatus::Valid,
    };
    resolve_pots(&mut st);

    // Layer 0..50 holds 150 chips, shared by all three, won by seat 0.
    // Layer 50..100 holds 100 chips, funded by seats 1 and 2, won by 1.
    // Layer 100..200 holds 100 chips, funded by seat 2 alone.
    assert_eq!(st.players_state[0].reward, 150 - 50);
    assert_eq!(st.players_state[1].reward, 100 - 100);
    assert_eq!(st.players_state[2].reward, 100 - 200);
    let sum: i64 = st.players_state.iter().map(|p| p.reward).sum();
    assert_eq!(sum, 0);
    assert!(st.final_state);
    assert!(st.players_state.iter().all(|p| !p.active));
}

/// A layer that only folded seats funded returns to its contributors.
#[test]
fn an_unwinnable_layer_is_refunded() {
    let board = vec![c(0, 2), c(5, 1), c(7, 3), c(9, 0), c(11, 1)];
    let mut folded = seat(0, (c(12, 0), c(12, 1)), 300);
    folded.active = false;
    let players = vec![
        folded,
        seat(1, (c(11, 0), c(1, 0)), 100),
        seat(2, (c(1, 1), c(3, 2)), 100),
    ];
    let mut st = State {
        current_player: 1,
        players_state: players,
        public_cards: board,
        stage: Stage::Showdown,
        button: 0,
        from_action: None,
        action_list: Vec::new(),
        legal_actions: Vec::new(),
        deck: Vec::new(),
        pot: 500,
        min_bet: 0,
        final_state: false,
        status: StateStatus::Valid,
    };
    resolve_pots(&mut st);

    // Layer 0..100 holds 300 chips, won by seat 1 (the pair of kings).
    // Layer 100..300 holds 200 chips, funded by the folded seat only,
    // and comes straight back to it.
    assert_eq!(st.players_state[0].reward, 200 - 300);
    assert_eq!(st.players_state[1].reward, 300 - 100);
    assert_eq!(st.players_state[2].reward, 0 - 100);
    let sum: i64 = st.players_state.iter().map(|p| p.reward).sum();
    assert_eq!(sum, 0);
}

/// An odd chip that an even split leaves over goes to the winner in
/// the lowest-numbered seat.
#[test]
fn the_odd_chip_goes_to_the_lowest_winning_seat() {
    let board = vec![c(0, 2), c(5, 1), c(7, 3), c(9, 0), c(11, 1)];
    // Seat 0 folded for 17; seats 1 and 2 are all-in for 17 with hands
    // of equal strength: one layer of 51 chips with two winners.
    let mut folded = seat(0, (c(1, 0), c(2, 0)), 17);
    folded.active = false;
    let players = vec![
        folded,
        seat(1, (c(12, 0), c(10, 0)), 17),
        seat(2, (c(12, 2), c(10, 2)), 17),
    ];
    let mut st = State {
        current_player: 1,
        players_state: players,
        public_cards: board,
        stage: Stage::Showdown,
        button: 0,
        from_action: None,
        action_list: Vec::new(),
        legal_actions: Vec::new(),
        deck: Vec::new(),
        pot: 51,
        min_bet: 0,
        final_state: false,
        status: StateStatus::Valid,
    };
    resolve_pots(&mut st);

    // 51 chips, two equal winners: 25 each, and the odd chip goes to
    // seat 1, the winning seat with the lowest number.
    assert_eq!(st.players_state[0].reward, -17);
    assert_eq!(st.players_state[1].reward, 26 - 17);
    assert_eq!(st.players_state[2].reward, 25 - 17);
    let sum: i64 = st.players_state.iter().map(|p| p.reward).sum();
    assert_eq!(sum, 0);
}
