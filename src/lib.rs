//! Orchestration core for a swarm of agents working through a task graph:
//! sessions, the agent pool, the dependency-ordered task queue and the
//! conflict-free shared state space.

pub mod types;
pub mod task_queue;
pub mod shared_state;
mod outside;
pub mod agent_pool;
pub mod sizing;
pub mod session;
