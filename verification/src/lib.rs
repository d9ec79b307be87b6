//! A deterministic rules engine for No-Limit Texas Hold'em.
//!
//! The engine advances a hand from the deal to the showdown through an
//! explicit betting state machine: it computes the set of legal actions,
//! validates and clamps each submitted action, resolves side pots with
//! all-in semantics, ranks five-card poker hands, and assigns every
//! player a canonical hand-abstraction bucket.  Every state transition
//! is a pure function from an immutable prior state to a new state.

pub mod abstraction;
pub mod action;
pub mod card;
pub mod eval;
pub mod game_logic;
pub mod messages;
pub mod pots;
pub mod stage;
pub mod state;
