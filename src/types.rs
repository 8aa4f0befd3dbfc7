use vstd::prelude::*;

verus! {

/// Identity of a session.
pub type SessionId = u128;

/// Identity of an agent.
pub type AgentId = u128;

/// Identity of a task.
pub type TaskId = u128;

/// Identity of the user who owns a session.
pub type UserId = String;

/// Lifecycle of a session: `Initializing -> Active <-> Paused`, then
/// `Completed` or `Failed`, both terminal.
#[derive(Clone, Copy, PartialEq, Eq, Structural, Debug)]
pub enum SessionStatus {
    Initializing,
    Active,
    Paused,
    Completed,
    Failed,
}

/// What an agent does; tasks may be bound to one role.
#[derive(Clone, Copy, PartialEq, Eq, Structural, Debug)]
pub enum AgentRole {
    Planner,
    Coder,
    Tester,
    Browser,
    Verifier,
}

/// Which backend an agent executes its tasks with.
#[derive(Clone, Copy, PartialEq, Eq, Structural, Debug)]
pub enum ModelPreference {
    GPT51,
    ClaudeOpus45,
    Gemini3Pro,
    NoModel,
}

/// Lifecycle of an agent.
#[derive(Clone, Copy, PartialEq, Eq, Structural, Debug)]
pub enum AgentStatus {
    Idle,
    Working,
    Blocked,
    Failed,
}

/// Kind of project a session carries out.
#[derive(Clone, Copy, PartialEq, Eq, Structural, Debug)]
pub enum TemplateType {
    HospitalIntegration,
    ResearchSprint,
    SoftwareDev,
    Manufacturing,
}

/// How widely a session fans out over agents.
#[derive(Clone, Copy, PartialEq, Eq, Structural, Debug)]
pub enum ParallelizationMode {
    Sequential,
    Batch10,
    Batch100,
    Turbo,
}

/// Estimated size of a project.
#[derive(Clone, Copy, PartialEq, Eq, Structural, Debug)]
pub enum Complexity {
    Small,
    Medium,
    Large,
    XLarge,
}

/// What a caller asks a session to carry out.
pub struct ProjectSpec {
    pub name: String,
    pub template: TemplateType,
    pub replication_count: usize,
    pub parallelization: ParallelizationMode,
    pub requires_browser: bool,
    pub estimated_complexity: Complexity,
}

/// Everything that an operation of the orchestrator can fail with.
#[derive(Clone, Copy, PartialEq, Eq, Structural, Debug)]
pub enum SwarmError {
    SessionNotFound,
    AgentSpawnFailed,
    InvalidSpec,
    CyclicDependency,
    UnknownDependency,
    DuplicateTask,
    TaskNotFound,
    TaskNotAssigned,
    TaskExecutionFailed,
    StateConflict,
    StateError,
}

/// The text that describes each error.
pub open spec fn error_text(e: SwarmError) -> Seq<char> {
    match e {
        SwarmError::SessionNotFound => "Session not found"@,
        SwarmError::AgentSpawnFailed => "Failed to spawn agent"@,
        SwarmError::InvalidSpec => "Invalid project specification"@,
        SwarmError::CyclicDependency => "Cyclic task dependency"@,
        SwarmError::UnknownDependency => "Unknown task dependency"@,
        SwarmError::DuplicateTask => "Duplicate task identity"@,
        SwarmError::TaskNotFound => "Task not found"@,
        SwarmError::TaskNotAssigned => "Task not assigned to this agent"@,
        SwarmError::TaskExecutionFailed => "Task execution failed"@,
        SwarmError::StateConflict => "Shared state conflict"@,
        SwarmError::StateError => "State management error"@,
    }
}

impl SwarmError {
    /// A short human-readable description of the error.
    pub fn message(&self) -> (r: &'static str)
        ensures
            r@ == error_text(*self),
    {
        match self {
            SwarmError::SessionNotFound => "Session not found",
            SwarmError::AgentSpawnFailed => "Failed to spawn agent",
            SwarmError::InvalidSpec => "Invalid project specification",
            SwarmError::CyclicDependency => "Cyclic task dependency",
            SwarmError::UnknownDependency => "Unknown task dependency",
            SwarmError::DuplicateTask => "Duplicate task identity",
            SwarmError::TaskNotFound => "Task not found",
            SwarmError::TaskNotAssigned => "Task not assigned to this agent",
            SwarmError::TaskExecutionFailed => "Task execution failed",
            SwarmError::StateConflict => "Shared state conflict",
            SwarmError::StateError => "State management error",
        }
    }
}

} // verus!
