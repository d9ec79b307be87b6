//! Player actions and the append-only action log.

use vstd::prelude::*;

use crate::stage::Stage;

verus! {

/// The three action kinds a player can submit.  `CheckCall` resolves to
/// a check or a call at apply time by comparing the player's current bet
/// to the table maximum; `BetRaise` carries the requested total-bet
/// amount in [`Action::amount`].
#[derive(Clone, Copy, PartialEq, Eq, Structural, Debug)]
pub enum ActionEnum {
    Fold,
    CheckCall,
    BetRaise,
}

/// An action kind together with its chip amount.  The amount matters
/// only for `BetRaise`, where it is the requested total bet for the
/// street; the engine clamps it rather than rejecting it.
#[derive(Clone, Copy, PartialEq, Eq, Structural, Debug)]
pub struct Action {
    pub action: ActionEnum,
    pub amount: u64,
}

impl Action {
    pub fn new(action: ActionEnum, amount: u64) -> (r: Action)
        ensures
            r.action == action,
            r.amount == amount,
    {
        Action { action, amount }
    }
}

/// One entry of the action log: the seat that acted, the *resolved*
/// action and amount (after clamping), the stage it happened in, and a
/// snapshot of the action kinds that were legal when the seat acted.
#[derive(Debug)]
pub struct ActionRecord {
    pub player: usize,
    pub action: Action,
    pub stage: Stage,
    pub legal_actions: Vec<ActionEnum>,
}

impl ActionRecord {
    /// Two records are equivalent when every observable field agrees
    /// (the legal-set snapshots hold the same kinds in the same order).
    pub open spec fn equiv(self, other: ActionRecord) -> bool {
        &&& self.player == other.player
        &&& self.action == other.action
        &&& self.stage == other.stage
        &&& self.legal_actions@ == other.legal_actions@
    }
}

impl Clone for ActionRecord {
    fn clone(&self) -> (r: Self)
        ensures
            r.equiv(*self),
    {
        ActionRecord {
            player: self.player,
            action: self.action,
            stage: self.stage,
            legal_actions: copy_action_kinds(&self.legal_actions),
        }
    }
}

/// An element-by-element copy of a list of action kinds.
pub fn copy_action_kinds(v: &Vec<ActionEnum>) -> (r: Vec<ActionEnum>)
    ensures
        r@ == v@,
{
    let mut r: Vec<ActionEnum> = Vec::new();
    let mut i: usize = 0;
    while i < v.len()
        invariant
            i <= v@.len(),
            r@ == v@.take(i as int),
        decreases v@.len() - i,
    {
        r.push(v[i]);
        i = i + 1;
        assert(r@ =~= v@.take(i as int));
    }
    assert(r@ =~= v@);
    r
}

} // verus!
