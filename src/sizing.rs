use vstd::prelude::*;

use crate::types::{Complexity, ParallelizationMode, ProjectSpec, SwarmError};

verus! {

/// The most agents a Turbo session sizes its base for.
pub const TURBO_BASE_CAP: usize = 10000;

/// How many agents of each role a session starts with.
#[derive(Clone, Copy, PartialEq, Eq, Structural, Debug)]
pub struct AgentPlan {
    pub planners: usize,
    pub coders: usize,
    pub testers: usize,
    pub browsers: usize,
}

/// The base agent count of a parallelization mode.
pub open spec fn base_agents(mode: ParallelizationMode, replication_count: int) -> int {
    match mode {
        ParallelizationMode::Sequential => 1,
        ParallelizationMode::Batch10 => 10,
        ParallelizationMode::Batch100 => 100,
        ParallelizationMode::Turbo => if replication_count * 10 < 10000 { replication_count * 10 } else { 10000 },
    }
}

/// The complexity fraction in quarters: 1/4, 2/4, 3/4 or 4/4.
pub open spec fn complexity_quarters(c: Complexity) -> int {
    match c {
        Complexity::Small => 1,
        Complexity::Medium => 2,
        Complexity::Large => 3,
        Complexity::XLarge => 4,
    }
}

/// `max(1, round(base * fraction))`, rounding halves up.
pub open spec fn coders_for(base: int, c: Complexity) -> int {
    let r = (base * complexity_quarters(c) + 2) / 4;
    if r < 1 { 1 } else { r }
}

/// `max(1, coders / 4)`.
pub open spec fn testers_for(coders: int) -> int {
    if coders / 4 < 1 { 1 } else { coders / 4 }
}

/// The plan for a project: one planner, the coders and testers above, and
/// one browser agent when the project needs browser automation.
pub open spec fn plan_for(spec: ProjectSpec) -> AgentPlan {
    let base = base_agents(spec.parallelization, spec.replication_count as int);
    let coders = coders_for(base, spec.estimated_complexity);
    AgentPlan {
        planners: 1,
        coders: coders as usize,
        testers: testers_for(coders) as usize,
        browsers: if spec.requires_browser { 1 } else { 0 },
    }
}

impl AgentPlan {
    pub open spec fn total_spec(&self) -> int {
        self.planners + self.coders + self.testers + self.browsers
    }

    /// Number of agents in the plan.
    pub fn total(&self) -> (r: usize)
        requires
            self.total_spec() <= usize::MAX,
        ensures
            r == self.total_spec(),
    {
        self.planners + self.coders + self.testers + self.browsers
    }
}

/// Sizes the agent pool of a session.
///
/// A project must be replicated at least once; a replication count of 0
/// is refused with `InvalidSpec`.
pub fn plan_agents(spec: &ProjectSpec) -> (r: Result<AgentPlan, SwarmError>)
    ensures
        spec.replication_count == 0 <==> r is Err,
        r is Err ==> r == Err::<AgentPlan, SwarmError>(SwarmError::InvalidSpec),
        r is Ok ==> r->Ok_0 == plan_for(*spec),
        r is Ok ==> r->Ok_0.total_spec() <= 12502,
{
    if spec.replication_count == 0 {
        return Err(SwarmError::InvalidSpec);
    }
    let base: usize = match spec.parallelization {
        ParallelizationMode::Sequential => 1,
        ParallelizationMode::Batch10 => 10,
        ParallelizationMode::Batch100 => 100,
        ParallelizationMode::Turbo => {
            if spec.replication_count < TURBO_BASE_CAP / 10 {
                spec.replication_count * 10
            } else {
                TURBO_BASE_CAP
            }
        },
    };
    let quarters: usize = match spec.estimated_complexity {
        Complexity::Small => 1,
        Complexity::Medium => 2,
        Complexity::Large => 3,
        Complexity::XLarge => 4,
    };
    assert(base <= 10000);
    assert(base * quarters <= 40000) by (nonlinear_arith)
        requires
            base <= 10000,
            quarters <= 4,
    ;
    let rounded = (base * quarters + 2) / 4;
    let coders = if rounded < 1 { 1 } else { rounded };
    let testers = if coders / 4 < 1 { 1 } else { coders / 4 };
    let browsers: usize = if spec.requires_browser { 1 } else { 0 };
    Ok(AgentPlan { planners: 1, coders, testers, browsers })
}

} // verus!
