use vstd::prelude::*;
use crate::error::ValidationError;

verus! {

/// Where the validation of a pairing credential stands.
#[derive(Clone, Copy, Debug, PartialEq, Eq, Structural)]
pub enum PairingState {
    /// The credential has to be probed.
    Untested,
    /// The probe failed; wireless debugging has to be switched on.
    NeedsDebugEnable,
    /// The probe failed again; the device has to be paired.
    NeedsPairing,
    /// The probe succeeded.
    Valid,
    /// Validation has ended without success.
    Fatal(ValidationError),
}

/// What the caller has to do next on the device.
#[derive(Clone, Copy, Debug, PartialEq, Eq, Structural)]
pub enum PairingAction {
    /// Probe the device with the stored credential.
    Probe,
    /// Switch wireless debugging on.
    EnableDebug,
    /// Pair with the device.
    Pair,
    /// Nothing: validation has ended.
    Stop,
}

/// The setting that switches wireless debugging on.
pub const DEBUG_SETTING: &'static str = "EnableWifiDebugging";

/// The domain that the setting belongs to.
pub const DEBUG_DOMAIN: &'static str = "com.apple.mobile.wireless_lockdown";

/// The retry machine that finds out whether a device accepts its stored
/// pairing credential, and corrects what it can where the device does not.
///
/// A round of corrections is one switching on of wireless debugging and one
/// pairing, each followed by a probe. `rounds` counts the rounds that are
/// used up, `limit` is the number of rounds allowed.
#[derive(Clone, Copy, Debug, PartialEq, Eq, Structural)]
pub struct PairingValidator {
    pub state: PairingState,
    pub debug_enabled: bool,
    pub paired: bool,
    pub rounds: u32,
    pub limit: u32,
}

/// The state with which a round of corrections begins or, where no round is
/// allowed, validation ends.
pub open spec fn begin_round(v: PairingValidator) -> PairingValidator {
    if v.rounds < v.limit {
        PairingValidator {
            state: PairingState::NeedsDebugEnable,
            debug_enabled: false,
            paired: false,
            ..v
        }
    } else {
        PairingValidator { state: PairingState::Fatal(ValidationError::ValidationExhausted), ..v }
    }
}

/// The action that the state of `v` asks for.
pub open spec fn action_of(v: PairingValidator) -> PairingAction {
    match v.state {
        PairingState::Untested => PairingAction::Probe,
        PairingState::NeedsDebugEnable => PairingAction::EnableDebug,
        PairingState::NeedsPairing => PairingAction::Pair,
        PairingState::Valid => PairingAction::Stop,
        PairingState::Fatal(_) => PairingAction::Stop,
    }
}

/// Validation has ended.
pub open spec fn is_settled(v: PairingValidator) -> bool {
    v.state is Valid || v.state is Fatal
}

/// The validator after the action that `v` asks for has succeeded or failed.
///
/// A probe that succeeds ends validation. One that fails asks for the next
/// correction of the round: wireless debugging first, pairing second; after
/// both, the round is used up and the next begins, if one is left; if none
/// is, validation is exhausted. A
/// correction that succeeds asks for a new probe, one that fails ends
/// validation with its own error.
pub open spec fn step(v: PairingValidator, succeeded: bool) -> PairingValidator {
    match v.state {
        PairingState::Untested => if succeeded {
            PairingValidator { state: PairingState::Valid, ..v }
        } else if !v.debug_enabled {
            begin_round(v)
        } else if !v.paired {
            PairingValidator { state: PairingState::NeedsPairing, ..v }
        } else if v.rounds + 1 < v.limit {
            begin_round(PairingValidator { rounds: (v.rounds + 1) as u32, ..v })
        } else {
            PairingValidator {
                state: PairingState::Fatal(ValidationError::ValidationExhausted),
                ..v
            }
        },
        PairingState::NeedsDebugEnable => if succeeded {
            PairingValidator { state: PairingState::Untested, debug_enabled: true, ..v }
        } else {
            PairingValidator { state: PairingState::Fatal(ValidationError::EnableDebugFailed), ..v }
        },
        PairingState::NeedsPairing => if succeeded {
            PairingValidator { state: PairingState::Untested, paired: true, ..v }
        } else {
            PairingValidator { state: PairingState::Fatal(ValidationError::PairingFailed), ..v }
        },
        PairingState::Valid => v,
        PairingState::Fatal(_) => v,
    }
}

/// What holds of every validator that `new` and `advance` produce: the
/// corrections recorded belong to a round that was allowed.
pub open spec fn is_consistent(v: PairingValidator) -> bool {
    &&& v.rounds <= v.limit
    &&& v.paired ==> v.debug_enabled
    &&& !is_settled(v) && (v.debug_enabled || v.state is NeedsDebugEnable || v.state
        is NeedsPairing) ==> v.rounds < v.limit
    &&& v.state is NeedsPairing ==> v.debug_enabled && !v.paired
    &&& v.state is NeedsDebugEnable ==> !v.debug_enabled && !v.paired
}

/// The place of `v` within its round, counted in actions.
pub open spec fn place_in_round(v: PairingValidator) -> int {
    match v.state {
        PairingState::Untested => if !v.debug_enabled {
            0
        } else if !v.paired {
            2
        } else {
            4
        },
        PairingState::NeedsDebugEnable => 1,
        PairingState::NeedsPairing => 3,
        PairingState::Valid => 5,
        PairingState::Fatal(_) => 5,
    }
}

/// An upper bound on the number of actions that `v` can still ask for.
pub open spec fn actions_left(v: PairingValidator) -> int {
    if is_settled(v) {
        0
    } else {
        4 * (v.limit - v.rounds) + 5 - place_in_round(v)
    }
}

/// The actions that the outcomes `outcomes`, taken in order, answer, from
/// `v` on and until validation ends.
pub open spec fn actions(v: PairingValidator, outcomes: Seq<bool>) -> Seq<PairingAction>
    decreases outcomes.len(),
{
    if outcomes.len() == 0 || is_settled(v) {
        Seq::<PairingAction>::empty()
    } else {
        seq![action_of(v)] + actions(step(v, outcomes[0]), outcomes.drop_first())
    }
}

/// The validator after the outcomes `outcomes` were taken in, in order,
/// from `v` on and until validation ends.
pub open spec fn outcome(v: PairingValidator, outcomes: Seq<bool>) -> PairingValidator
    decreases outcomes.len(),
{
    if outcomes.len() == 0 || is_settled(v) {
        v
    } else {
        outcome(step(v, outcomes[0]), outcomes.drop_first())
    }
}

/// The validator that has probed nothing yet and allows `limit` rounds of
/// corrections.
pub open spec fn fresh(limit: u32) -> PairingValidator {
    PairingValidator {
        state: PairingState::Untested,
        debug_enabled: false,
        paired: false,
        rounds: 0,
        limit,
    }
}

/// Law: validation stays ended once it has ended.
pub proof fn lemma_settled_stays(v: PairingValidator, succeeded: bool)
    requires
        is_settled(v),
    ensures
        step(v, succeeded) == v,
{
}

/// Law: every step keeps the validator consistent.
pub proof fn lemma_step_consistent(v: PairingValidator, succeeded: bool)
    requires
        is_consistent(v),
    ensures
        is_consistent(step(v, succeeded)),
        step(v, succeeded).limit == v.limit,
{
}

/// Law: every action brings the end closer, so that validation asks for at
/// most `4 * limit + 1` actions and then has ended.
pub proof fn lemma_step_ends(v: PairingValidator, succeeded: bool)
    requires
        is_consistent(v),
        !is_settled(v),
    ensures
        0 <= actions_left(step(v, succeeded)) < actions_left(v),
        actions_left(v) <= 4 * v.limit + 5,
{
}

/// Law: validation ends within the actions that are left, whatever comes
/// of them: outcomes for that many actions always lead to the end, and no
/// more actions than that are ever asked for.
pub proof fn lemma_validation_ends(v: PairingValidator, outcomes: Seq<bool>)
    requires
        is_consistent(v),
    ensures
        actions(v, outcomes).len() <= actions_left(v),
        outcomes.len() >= actions_left(v) ==> is_settled(outcome(v, outcomes)),
        is_consistent(outcome(v, outcomes)),
    decreases outcomes.len(),
{
    if outcomes.len() > 0 && !is_settled(v) {
        lemma_step_ends(v, outcomes[0]);
        lemma_step_consistent(v, outcomes[0]);
        lemma_validation_ends(step(v, outcomes[0]), outcomes.drop_first());
    }
}

/// Law: where the probe fails twice and then succeeds, and both
/// corrections succeed, the credential becomes valid after wireless
/// debugging was switched on once and the device was paired once, in that
/// order, however many rounds are allowed.
pub proof fn lemma_converges_after_two_failures(limit: u32)
    requires
        limit >= 1,
    ensures
        outcome(fresh(limit), seq![false, true, false, true, true]).state == PairingState::Valid,
        actions(fresh(limit), seq![false, true, false, true, true]) == seq![
            PairingAction::Probe,
            PairingAction::EnableDebug,
            PairingAction::Probe,
            PairingAction::Pair,
            PairingAction::Probe,
        ],
{
    let outcomes = seq![false, true, false, true, true];
    let v0 = fresh(limit);
    let v1 = step(v0, false);
    let v2 = step(v1, true);
    let v3 = step(v2, false);
    let v4 = step(v3, true);
    let v5 = step(v4, true);
    let o1 = outcomes.drop_first();
    let o2 = o1.drop_first();
    let o3 = o2.drop_first();
    let o4 = o3.drop_first();
    let o5 = o4.drop_first();
    assert(o5.len() == 0);
    assert(v5.state == PairingState::Valid);
    assert(outcome(v5, o5) == v5);
    assert(outcome(v4, o4) == v5);
    assert(outcome(v3, o3) == v5);
    assert(outcome(v2, o2) == v5);
    assert(outcome(v1, o1) == v5);
    assert(actions(v5, o5) == Seq::<PairingAction>::empty());
    assert(actions(v4, o4) == seq![PairingAction::Probe]);
    assert(actions(v3, o3) == seq![PairingAction::Pair, PairingAction::Probe]);
    assert(actions(v2, o2) == seq![
        PairingAction::Probe,
        PairingAction::Pair,
        PairingAction::Probe,
    ]);
    assert(actions(v1, o1) == seq![
        PairingAction::EnableDebug,
        PairingAction::Probe,
        PairingAction::Pair,
        PairingAction::Probe,
    ]);
    assert(actions(v0, outcomes) == seq![
        PairingAction::Probe,
        PairingAction::EnableDebug,
        PairingAction::Probe,
        PairingAction::Pair,
        PairingAction::Probe,
    ]);
}

/// Law: only a probe that succeeds makes the credential valid.
pub proof fn lemma_valid_by_probe(v: PairingValidator, succeeded: bool)
    requires
        !(v.state is Valid),
        step(v, succeeded).state is Valid,
    ensures
        action_of(v) == PairingAction::Probe,
        succeeded,
{
}

/// Law: the device is paired only after wireless debugging was switched on
/// in the same round, and each correction follows a probe that failed.
pub proof fn lemma_corrections_in_order(v: PairingValidator, succeeded: bool)
    requires
        is_consistent(v),
    ensures
        action_of(step(v, succeeded)) == PairingAction::Pair && !(v.state is NeedsPairing) ==> {
            &&& action_of(v) == PairingAction::Probe
            &&& !succeeded
            &&& v.debug_enabled
        },
        action_of(step(v, succeeded)) == PairingAction::EnableDebug && !(v.state
            is NeedsDebugEnable) ==> action_of(v) == PairingAction::Probe && !succeeded,
{
}

/// Law: each error comes from its own failure. A correction that fails ends
/// validation with its error, and validation is exhausted only by a probe
/// that fails when no round is left.
pub proof fn lemma_fatal_causes(v: PairingValidator, succeeded: bool)
    requires
        !is_settled(v),
    ensures
        step(v, succeeded).state == PairingState::Fatal(ValidationError::EnableDebugFailed) <==> (
        v.state is NeedsDebugEnable && !succeeded),
        step(v, succeeded).state == PairingState::Fatal(ValidationError::PairingFailed) <==> (
        v.state is NeedsPairing && !succeeded),
        step(v, succeeded).state == PairingState::Fatal(ValidationError::ValidationExhausted)
            ==> v.state is Untested && !succeeded,
{
}

impl PairingValidator {
    /// A validator that has probed nothing yet and allows `limit` rounds of
    /// corrections.
    pub fn new(limit: u32) -> (v: PairingValidator)
        ensures
            v == fresh(limit),
            is_consistent(v),
    {
        PairingValidator {
            state: PairingState::Untested,
            debug_enabled: false,
            paired: false,
            rounds: 0,
            limit,
        }
    }

    /// The state of the validation.
    pub fn state(&self) -> (state: PairingState)
        ensures
            state == self.state,
    {
        self.state
    }

    /// Whether validation has ended.
    pub fn settled(&self) -> (settled: bool)
        ensures
            settled == is_settled(*self),
    {
        match self.state {
            PairingState::Valid => true,
            PairingState::Fatal(_) => true,
            _ => false,
        }
    }

    /// What the caller has to do next.
    pub fn next_action(&self) -> (action: PairingAction)
        ensures
            action == action_of(*self),
    {
        match self.state {
            PairingState::Untested => PairingAction::Probe,
            PairingState::NeedsDebugEnable => PairingAction::EnableDebug,
            PairingState::NeedsPairing => PairingAction::Pair,
            PairingState::Valid => PairingAction::Stop,
            PairingState::Fatal(_) => PairingAction::Stop,
        }
    }

    /// The validator with which a round of corrections begins.
    fn round_begun(self) -> (v: PairingValidator)
        ensures
            v == begin_round(self),
    {
        if self.rounds < self.limit {
            PairingValidator {
                state: PairingState::NeedsDebugEnable,
                debug_enabled: false,
                paired: false,
                rounds: self.rounds,
                limit: self.limit,
            }
        } else {
            PairingValidator {
                state: PairingState::Fatal(ValidationError::ValidationExhausted),
                debug_enabled: self.debug_enabled,
                paired: self.paired,
                rounds: self.rounds,
                limit: self.limit,
            }
        }
    }

    /// Takes in whether the action that `next_action` named has succeeded.
    pub fn advance(&mut self, succeeded: bool)
        ensures
            *final(self) == step(*old(self), succeeded),
    {
        let v = *self;
        let next = match v.state {
            PairingState::Untested => {
                if succeeded {
                    PairingValidator { state: PairingState::Valid, ..v }
                } else if !v.debug_enabled {
                    v.round_begun()
                } else if !v.paired {
                    PairingValidator { state: PairingState::NeedsPairing, ..v }
                } else if v.rounds < v.limit && v.limit - v.rounds > 1 {
                    (PairingValidator { rounds: v.rounds + 1, ..v }).round_begun()
                } else {
                    PairingValidator {
                        state: PairingState::Fatal(ValidationError::ValidationExhausted),
                        ..v
                    }
                }
            },
            PairingState::NeedsDebugEnable => {
                if succeeded {
                    PairingValidator { state: PairingState::Untested, debug_enabled: true, ..v }
                } else {
                    PairingValidator {
                        state: PairingState::Fatal(ValidationError::EnableDebugFailed),
                        ..v
                    }
                }
            },
            PairingState::NeedsPairing => {
                if succeeded {
                    PairingValidator { state: PairingState::Untested, paired: true, ..v }
                } else {
                    PairingValidator {
                        state: PairingState::Fatal(ValidationError::PairingFailed),
                        ..v
                    }
                }
            },
            PairingState::Valid => v,
            PairingState::Fatal(_) => v,
        };
        *self = next;
    }

    /// Replays recorded outcomes: takes them in, one after the other, until
    /// validation has ended or none is left, and hands back the actions that
    /// they answered.
    pub fn replay(&mut self, outcomes: &Vec<bool>) -> (performed: Vec<PairingAction>)
        ensures
            *final(self) == outcome(*old(self), outcomes@),
            performed@ == actions(*old(self), outcomes@),
    {
        let mut performed: Vec<PairingAction> = Vec::new();
        let mut i: usize = 0;
        proof {
            assert(outcomes@.skip(0) == outcomes@);
        }
        while i < outcomes.len() && !self.settled()
            invariant
                i <= outcomes.len(),
                outcome(*old(self), outcomes@) == outcome(*self, outcomes@.skip(i as int)),
                actions(*old(self), outcomes@) == performed@ + actions(
                    *self,
                    outcomes@.skip(i as int),
                ),
            decreases outcomes.len() - i,
        {
            proof {
                let rest = outcomes@.skip(i as int);
                assert(rest[0] == outcomes@[i as int]);
                assert(rest.drop_first() == outcomes@.skip(i + 1));
                assert(performed@.push(action_of(*self)) + actions(
                    step(*self, rest[0]),
                    rest.drop_first(),
                ) == performed@ + (seq![action_of(*self)] + actions(
                    step(*self, rest[0]),
                    rest.drop_first(),
                )));
            }
            performed.push(self.next_action());
            self.advance(outcomes[i]);
            i += 1;
        }
        proof {
            assert(performed@ + Seq::<PairingAction>::empty() == performed@);
        }
        performed
    }
}

} // verus!
