//! A service that runs with one of two runners and can be switched between them.
use vstd::prelude::*;

verus! {

/// A score that a type stands for.
pub trait Scorer {
    spec fn spec_score() -> u64;

    fn score() -> (r: u64)
        ensures
            r == Self::spec_score(),
    ;
}

pub struct BigScorer {}

impl Scorer for BigScorer {
    open spec fn spec_score() -> u64 {
        24
    }

    fn score() -> (r: u64) {
        24
    }
}

pub struct SmallScorer {}

impl Scorer for SmallScorer {
    open spec fn spec_score() -> u64 {
        12
    }

    fn score() -> (r: u64) {
        12
    }
}

/// Something that answers a message.
pub trait Runner {
    /// The answer to `msg`.
    spec fn reply(&self, msg: Seq<char>) -> Seq<char>;

    fn run(&mut self, msg: String) -> (r: String)
        ensures
            r@ == old(self).reply(msg@),
    ;
}

/// Answers with the message after `AAA `.
pub struct RunnerA {}

impl Runner for RunnerA {
    open spec fn reply(&self, msg: Seq<char>) -> Seq<char> {
        "AAA "@ + msg
    }

    fn run(&mut self, msg: String) -> (r: String) {
        let mut out = String::new();
        out.append("AAA ");
        out.append(msg.as_str());
        out
    }
}

/// Answers with the message after `BBBB `; keeps a use count.
pub struct RunnerB {
    pub count: u64,
}

impl RunnerB {
    pub fn new(use_count: u64) -> (r: RunnerB)
        ensures
            r.count == use_count,
    {
        RunnerB { count: use_count }
    }
}

impl Runner for RunnerB {
    open spec fn reply(&self, msg: Seq<char>) -> Seq<char> {
        "BBBB "@ + msg
    }

    fn run(&mut self, msg: String) -> (r: String) {
        let mut out = String::new();
        out.append("BBBB ");
        out.append(msg.as_str());
        out
    }
}

/// Which runner a service uses.
#[derive(Debug, Copy, Clone, PartialEq, Eq, Structural)]
pub enum RunnerDescription {
    RunnerA,
    RunnerB,
}

/// One runner or the other.
pub enum AnyRunner {
    A(RunnerA),
    B(RunnerB),
}

impl Runner for AnyRunner {
    open spec fn reply(&self, msg: Seq<char>) -> Seq<char> {
        match self {
            AnyRunner::A(a) => a.reply(msg),
            AnyRunner::B(b) => b.reply(msg),
        }
    }

    fn run(&mut self, msg: String) -> (r: String) {
        match self {
            AnyRunner::A(a) => a.run(msg),
            AnyRunner::B(b) => b.run(msg),
        }
    }
}

/// The runner a description names: runner A, or runner B with a use count of 24.
pub open spec fn spec_runner_for(d: RunnerDescription) -> AnyRunner {
    match d {
        RunnerDescription::RunnerA => AnyRunner::A(RunnerA {}),
        RunnerDescription::RunnerB => AnyRunner::B(RunnerB { count: 24 }),
    }
}

pub fn runner_for_description(runner_description: RunnerDescription) -> (r: AnyRunner)
    ensures
        r == spec_runner_for(runner_description),
{
    match runner_description {
        RunnerDescription::RunnerA => AnyRunner::A(RunnerA {}),
        RunnerDescription::RunnerB => AnyRunner::B(RunnerB::new(24)),
    }
}

/// A service: the description of its runner, and that runner.
pub struct ServiceState {
    pub description: RunnerDescription,
    pub runner: AnyRunner,
}

impl ServiceState {
    pub fn new(runner_description: RunnerDescription) -> (r: ServiceState)
        ensures
            r.description == runner_description,
            r.runner == spec_runner_for(runner_description),
    {
        ServiceState { description: runner_description, runner: runner_for_description(runner_description) }
    }

    /// Switches to the runner `runner_description` names; a service that already runs
    /// it keeps its runner as it is.
    pub fn reconfigure(&mut self, runner_description: RunnerDescription)
        ensures
            *final(self) == spec_reconfigure(*old(self), runner_description),
    {
        if runner_description != self.description {
            self.runner = runner_for_description(runner_description);
            self.description = runner_description;
        }
    }
}

/// The service after `reconfigure(d)`.
pub open spec fn spec_reconfigure(s: ServiceState, d: RunnerDescription) -> ServiceState {
    if d == s.description {
        s
    } else {
        ServiceState { description: d, runner: spec_runner_for(d) }
    }
}

/// Switching to a runner twice is switching once, and switching to the runner in use
/// changes nothing.
pub proof fn lemma_reconfigure_idempotent(s: ServiceState, d: RunnerDescription)
    ensures
        spec_reconfigure(spec_reconfigure(s, d), d) == spec_reconfigure(s, d),
        d == s.description ==> spec_reconfigure(s, d) == s,
{
}

} // verus!
