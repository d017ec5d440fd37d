use vstd::prelude::*;

verus! {

/// Where the operator-side registration service stands.
#[derive(Clone, Copy, PartialEq, Eq, Structural, Debug)]
pub enum RegPhase {
    /// Not yet known to be registered on-chain: ask the chain.
    CheckingChain,
    /// The chain answered "not registered": submit a registration.
    RegisteringOnChain,
    /// Registered on-chain: keep the aggregator aware of this operator.
    Heartbeat,
}

/// What the hosting loop reports back to the state machine.
#[derive(Clone, Copy, PartialEq, Eq, Structural, Debug)]
pub enum RegEvent {
    /// The on-chain registration check answered.
    ChainStatus(bool),
    /// The on-chain registration check failed.
    ChainCheckFailed,
    /// The on-chain registration transaction was observed to succeed.
    RegisterSucceeded,
    /// The on-chain registration transaction failed.
    RegisterFailed,
    /// The aggregator answered whether it knows this operator.
    AggregatorStatus(bool),
    /// The aggregator could not be asked.
    AggregatorCheckFailed,
    /// The announcement call to the aggregator finished.
    AnnounceDone,
    /// The announcement call to the aggregator failed.
    AnnounceFailed,
}

/// What the hosting loop is to do next.
#[derive(Clone, Copy, PartialEq, Eq, Structural, Debug)]
pub enum RegAction {
    /// Ask the chain whether this operator is registered.
    CheckChain,
    /// Submit the on-chain registration transaction.
    RegisterOnChain,
    /// Ask the aggregator whether it knows this operator.
    QueryAggregator,
    /// Announce identity and callback url to the aggregator.
    Announce,
    /// Wait for the next heartbeat tick.
    Wait,
}

/// The registration and heartbeat state machine, driven by a hosting loop
/// that performs one action at a time and hands back what happened. Until the
/// operator observes its on-chain registration it keeps checking and
/// registering; from then on it only re-announces itself to the aggregator
/// whenever the aggregator no longer knows it, which heals the aggregator's
/// in-memory registry across its restarts.
pub struct RegistrationService {
    pub phase: RegPhase,
}

/// The transition relation: one step of the machine from `phase` on `ev`.
pub open spec fn reg_step_spec(phase: RegPhase, ev: RegEvent) -> (RegPhase, RegAction) {
    match phase {
        RegPhase::CheckingChain => match ev {
            RegEvent::ChainStatus(true) => (RegPhase::Heartbeat, RegAction::QueryAggregator),
            RegEvent::ChainStatus(false) => (
                RegPhase::RegisteringOnChain,
                RegAction::RegisterOnChain,
            ),
            _ => (RegPhase::CheckingChain, RegAction::CheckChain),
        },
        RegPhase::RegisteringOnChain => match ev {
            RegEvent::RegisterSucceeded => (RegPhase::Heartbeat, RegAction::QueryAggregator),
            _ => (RegPhase::CheckingChain, RegAction::CheckChain),
        },
        RegPhase::Heartbeat => match ev {
            RegEvent::AggregatorStatus(false) => (RegPhase::Heartbeat, RegAction::Announce),
            _ => (RegPhase::Heartbeat, RegAction::Wait),
        },
    }
}

impl RegistrationService {
    /// A fresh service: nothing is known yet, so the first action checks the
    /// chain.
    pub fn new() -> (r: RegistrationService)
        ensures
            r.phase == RegPhase::CheckingChain,
    {
        RegistrationService { phase: RegPhase::CheckingChain }
    }

    /// The action that starts the machine.
    pub fn initial_action(&self) -> (r: RegAction)
        ensures
            self.phase == RegPhase::CheckingChain ==> r == RegAction::CheckChain,
            self.phase == RegPhase::RegisteringOnChain ==> r == RegAction::RegisterOnChain,
            self.phase == RegPhase::Heartbeat ==> r == RegAction::QueryAggregator,
    {
        match self.phase {
            RegPhase::CheckingChain => RegAction::CheckChain,
            RegPhase::RegisteringOnChain => RegAction::RegisterOnChain,
            RegPhase::Heartbeat => RegAction::QueryAggregator,
        }
    }

    /// Takes one step: consumes what happened, moves to the next phase and
    /// says what to do. Failures anywhere before steady state fall back to
    /// checking the chain again; once in steady state the machine never
    /// leaves it, and announces exactly when the aggregator has forgotten
    /// this operator.
    pub fn step(&mut self, ev: RegEvent) -> (r: RegAction)
        ensures
            (final(self).phase, r) == reg_step_spec(old(self).phase, ev),
            old(self).phase == RegPhase::Heartbeat ==> final(self).phase == RegPhase::Heartbeat,
    {
        let (next, action): (RegPhase, RegAction) = match self.phase {
            RegPhase::CheckingChain => match ev {
                RegEvent::ChainStatus(true) => (RegPhase::Heartbeat, RegAction::QueryAggregator),
                RegEvent::ChainStatus(false) => (
                    RegPhase::RegisteringOnChain,
                    RegAction::RegisterOnChain,
                ),
                _ => (RegPhase::CheckingChain, RegAction::CheckChain),
            },
            RegPhase::RegisteringOnChain => match ev {
                RegEvent::RegisterSucceeded => (RegPhase::Heartbeat, RegAction::QueryAggregator),
                _ => (RegPhase::CheckingChain, RegAction::CheckChain),
            },
            RegPhase::Heartbeat => match ev {
                RegEvent::AggregatorStatus(false) => (RegPhase::Heartbeat, RegAction::Announce),
                _ => (RegPhase::Heartbeat, RegAction::Wait),
            },
        };
        self.phase = next;
        action
    }
}

/// Steady state is absorbing: however the heartbeat goes, the machine never
/// returns to the on-chain registration phases.
pub proof fn lemma_heartbeat_absorbing(ev: RegEvent)
    ensures
        reg_step_spec(RegPhase::Heartbeat, ev).0 == RegPhase::Heartbeat,
{
}

} // verus!
