use vstd::prelude::*;

use crate::config::{MoveSelectorConfig, VariableTargetConfig};

verus! {

/// When the solver stops.
#[derive(Debug, Clone, PartialEq, Eq)]
pub struct TerminationConfig {
    /// Stop after this many seconds.
    pub seconds_spent_limit: Option<u64>,
}

/// A construction heuristic phase.
#[derive(Debug, Clone, PartialEq, Eq)]
pub struct ConstructionHeuristicConfig {
    /// The variable the phase constructs; none matches any.
    pub target: VariableTargetConfig,
}

impl Default for ConstructionHeuristicConfig {
    fn default() -> (r: Self)
        ensures
            r.target.is_any(),
    {
        ConstructionHeuristicConfig { target: VariableTargetConfig::default() }
    }
}

/// A local search phase.
#[derive(Debug)]
pub struct LocalSearchConfig {
    /// The neighborhoods the phase searches.
    pub neighborhoods: Vec<MoveSelectorConfig>,
}

impl Default for LocalSearchConfig {
    fn default() -> (r: Self)
        ensures
            r.neighborhoods@.len() == 0,
    {
        LocalSearchConfig { neighborhoods: Vec::new() }
    }
}

/// A solver phase.
#[derive(Debug)]
pub enum PhaseConfig {
    ConstructionHeuristic(ConstructionHeuristicConfig),
    LocalSearch(LocalSearchConfig),
}

/// The solver configuration: random seed, termination and phases in order.
#[derive(Debug)]
pub struct SolverConfig {
    pub random_seed: Option<u64>,
    pub termination: Option<TerminationConfig>,
    pub phases: Vec<PhaseConfig>,
}

impl SolverConfig {
    /// A configuration without seed, termination or phases.
    pub fn new() -> (c: Self)
        ensures
            c.random_seed is None,
            c.termination is None,
            c.phases@.len() == 0,
    {
        SolverConfig { random_seed: None, termination: None, phases: Vec::new() }
    }

    /// Sets the random seed.
    pub fn with_random_seed(self, seed: u64) -> (c: Self)
        ensures
            c == (Self { random_seed: Some(seed), ..self }),
    {
        SolverConfig { random_seed: Some(seed), ..self }
    }

    /// Sets the time limit.
    pub fn with_termination_seconds(self, seconds: u64) -> (c: Self)
        ensures
            c.random_seed == self.random_seed,
            c.phases == self.phases,
            c.termination == Some(TerminationConfig { seconds_spent_limit: Some(seconds) }),
    {
        SolverConfig { termination: Some(TerminationConfig { seconds_spent_limit: Some(seconds) }), ..self }
    }

    /// Appends a phase.
    pub fn with_phase(self, phase: PhaseConfig) -> (c: Self)
        ensures
            c.random_seed == self.random_seed,
            c.termination == self.termination,
            c.phases@ == self.phases@.push(phase),
    {
        let mut c = self;
        c.phases.push(phase);
        c
    }
}

} // verus!
