use turbo_swarm::agent_pool::{next_status, AgentEvent, AgentPool};
use turbo_swarm::session::{ModelClients, RedisClient, SessionManager, StateManager};
use turbo_swarm::shared_state::{SharedState, StateEntry};
use turbo_swarm::sizing::plan_agents;
use turbo_swarm::task_queue::{Task, TaskQueue, TaskStatus};
use turbo_swarm::types::{
    AgentRole, AgentStatus, Complexity, ModelPreference, ParallelizationMode, ProjectSpec, SessionStatus,
    SwarmError, TemplateType,
};

fn task(id: u128, deps: Vec<u128>) -> Task {
    Task {
        id,
        description: format!("task {}", id),
        estimated_time_min: 5,
        dependencies: deps,
        assigned_to: None,
        priority: 0,
        role: None,
    }
}

fn spec(mode: ParallelizationMode, replication_count: usize, complexity: Complexity, browser: bool) -> ProjectSpec {
    ProjectSpec {
        name: "Project".to_string(),
        template: TemplateType::SoftwareDev,
        replication_count,
        parallelization: mode,
        requires_browser: browser,
        estimated_complexity: complexity,
    }
}

fn manager(pool: AgentPool) -> SessionManager {
    let redis = RedisClient {};
    let state_manager = StateManager::new(redis);
    SessionManager::new(pool, state_manager)
}

#[test]
fn test_session_creation() {
    let _model_clients = ModelClients {};
    let agent_pool = AgentPool::new();
    let mut session_mgr = manager(agent_pool);

    let project = ProjectSpec {
        name: "Test Hospital Integration".to_string(),
        template: TemplateType::HospitalIntegration,
        replication_count: 100,
        parallelization: ParallelizationMode::Turbo,
        requires_browser: false,
        estimated_complexity: Complexity::Medium,
    };

    let session_id = session_mgr.create_session("user123".to_string(), &project).unwrap();
    let status = session_mgr.get_session_status(session_id).unwrap();

    assert_eq!(status.status, SessionStatus::Active);
    assert!(status.agent_count > 0);
}

#[test]
fn session_creation_spawns_planned_agents() {
    let mut mgr = manager(AgentPool::new());
    let project = spec(ParallelizationMode::Turbo, 100, Complexity::Medium, false);
    let id = mgr.create_session("user123".to_string(), &project).unwrap();
    let status = mgr.get_session_status(id).unwrap();
    // base 1000, 500 coders, 125 testers, 1 planner
    assert_eq!(status.agent_count, 626);
    assert_eq!(status.agents_idle, 626);
    assert_eq!(status.agents_working, 0);
    assert_eq!(status.metrics.agents_spawned, 626);
    assert_eq!(mgr.agents_of(id).len(), 626);
}

#[test]
fn turbo_sizing_scenario() {
    let plan = plan_agents(&spec(ParallelizationMode::Turbo, 50, Complexity::Medium, true)).unwrap();
    assert_eq!(plan.planners, 1);
    assert_eq!(plan.coders, 250);
    assert_eq!(plan.testers, 62);
    assert_eq!(plan.browsers, 1);
    assert_eq!(plan.total(), 314);
}

#[test]
fn sizing_rounds_and_floors() {
    let p = plan_agents(&spec(ParallelizationMode::Sequential, 1, Complexity::Small, false)).unwrap();
    assert_eq!((p.planners, p.coders, p.testers, p.browsers), (1, 1, 1, 0));
    let p = plan_agents(&spec(ParallelizationMode::Batch10, 1, Complexity::Small, false)).unwrap();
    assert_eq!(p.coders, 3);
    let p = plan_agents(&spec(ParallelizationMode::Batch10, 1, Complexity::Large, false)).unwrap();
    assert_eq!(p.coders, 8);
    assert_eq!(p.testers, 2);
    let p = plan_agents(&spec(ParallelizationMode::Batch100, 1, Complexity::XLarge, false)).unwrap();
    assert_eq!((p.coders, p.testers), (100, 25));
    let p = plan_agents(&spec(ParallelizationMode::Turbo, 5000, Complexity::XLarge, true)).unwrap();
    assert_eq!((p.coders, p.testers, p.total()), (10000, 2500, 12502));
}

#[test]
fn zero_replication_is_invalid() {
    assert_eq!(
        plan_agents(&spec(ParallelizationMode::Turbo, 0, Complexity::Medium, false)).err(),
        Some(SwarmError::InvalidSpec)
    );
    let mut mgr = manager(AgentPool::new());
    let r = mgr.create_session("u".to_string(), &spec(ParallelizationMode::Batch10, 0, Complexity::Small, false));
    assert_eq!(r.err(), Some(SwarmError::InvalidSpec));
}

#[test]
fn full_pool_refuses_session() {
    let mut mgr = manager(AgentPool::with_capacity(2));
    let r = mgr.create_session("u".to_string(), &spec(ParallelizationMode::Sequential, 1, Complexity::Small, false));
    assert_eq!(r.err(), Some(SwarmError::AgentSpawnFailed));
    let too_big = spec(ParallelizationMode::Turbo, 5000, Complexity::XLarge, false);
    let mut mgr = manager(AgentPool::new());
    assert_eq!(mgr.create_session("u".to_string(), &too_big).err(), Some(SwarmError::AgentSpawnFailed));
}

#[test]
fn taken_session_id_is_refused() {
    let mut mgr = manager(AgentPool::new());
    let p = spec(ParallelizationMode::Sequential, 1, Complexity::Small, false);
    assert_eq!(mgr.create_session_with(7, 0, "u".to_string(), &p), Ok(7));
    assert_eq!(mgr.create_session_with(7, 0, "u".to_string(), &p).err(), Some(SwarmError::StateError));
}

#[test]
fn dependency_scenario() {
    let mut q = TaskQueue::new();
    q.enqueue(task(1, vec![])).unwrap();
    q.enqueue(task(2, vec![1])).unwrap();
    q.enqueue(task(3, vec![1])).unwrap();
    assert_eq!(q.status_of(1), Some(TaskStatus::Ready));
    assert_eq!(q.status_of(2), Some(TaskStatus::Pending));
    assert_eq!(q.status_of(3), Some(TaskStatus::Pending));
    let (coder1, coder2) = (101u128, 102u128);
    assert_eq!(q.next_ready_for(AgentRole::Coder, coder1), Some(1));
    assert_eq!(q.next_ready_for(AgentRole::Coder, coder2), None);
    assert_eq!(q.status_of(2), Some(TaskStatus::Pending));
    q.report_completion(1, coder1).unwrap();
    assert_eq!(q.status_of(1), Some(TaskStatus::Completed));
    assert_eq!(q.status_of(2), Some(TaskStatus::Ready));
    assert_eq!(q.status_of(3), Some(TaskStatus::Ready));
    let a = q.next_ready_for(AgentRole::Coder, coder1).unwrap();
    let b = q.next_ready_for(AgentRole::Coder, coder2).unwrap();
    assert_eq!((a, b), (2, 3));
    assert_eq!(q.assignee_of(2), Some(coder1));
    assert_eq!(q.assignee_of(3), Some(coder2));
}

#[test]
fn self_dependency_is_cyclic() {
    let mut q = TaskQueue::new();
    q.enqueue(task(1, vec![])).unwrap();
    assert_eq!(q.enqueue(task(2, vec![1, 2])), Err(SwarmError::CyclicDependency));
    assert_eq!(q.len(), 1);
    assert_eq!(q.status_of(2), None);
}

#[test]
fn unknown_and_duplicate_tasks_are_refused() {
    let mut q = TaskQueue::new();
    q.enqueue(task(1, vec![])).unwrap();
    assert_eq!(q.enqueue(task(2, vec![9])), Err(SwarmError::UnknownDependency));
    assert_eq!(q.enqueue(task(1, vec![])), Err(SwarmError::DuplicateTask));
    assert_eq!(q.len(), 1);
}

#[test]
fn task_is_handed_out_once() {
    let mut q = TaskQueue::new();
    q.enqueue(task(1, vec![])).unwrap();
    assert_eq!(q.next_ready_for(AgentRole::Tester, 1), Some(1));
    assert_eq!(q.next_ready_for(AgentRole::Tester, 2), None);
    assert_eq!(q.in_flight(), 1);
    assert_eq!(q.report_completion(1, 2), Err(SwarmError::TaskNotAssigned));
    assert_eq!(q.report_completion(5, 1), Err(SwarmError::TaskNotFound));
}

#[test]
fn priority_and_role_decide_the_order() {
    let mut q = TaskQueue::new();
    let mut low = task(1, vec![]);
    low.priority = 1;
    let mut high = task(2, vec![]);
    high.priority = 9;
    let mut planner_only = task(3, vec![]);
    planner_only.priority = 50;
    planner_only.role = Some(AgentRole::Planner);
    q.enqueue(low).unwrap();
    q.enqueue(high).unwrap();
    q.enqueue(planner_only).unwrap();
    assert_eq!(q.next_ready_for(AgentRole::Coder, 1), Some(2));
    assert_eq!(q.next_ready_for(AgentRole::Coder, 1), Some(1));
    assert_eq!(q.next_ready_for(AgentRole::Coder, 1), None);
    assert_eq!(q.next_ready_for(AgentRole::Planner, 4), Some(3));
}

#[test]
fn failure_cascades_to_dependents() {
    let mut q = TaskQueue::new();
    q.enqueue(task(1, vec![])).unwrap();
    q.enqueue(task(2, vec![1])).unwrap();
    q.enqueue(task(3, vec![2])).unwrap();
    q.enqueue(task(4, vec![])).unwrap();
    assert_eq!(q.next_ready_for(AgentRole::Coder, 7), Some(1));
    q.report_failure(1, 7, false).unwrap();
    assert_eq!(q.status_of(1), Some(TaskStatus::Failed));
    assert_eq!(q.status_of(2), Some(TaskStatus::Failed));
    assert_eq!(q.status_of(3), Some(TaskStatus::Failed));
    assert_eq!(q.status_of(4), Some(TaskStatus::Ready));
    q.enqueue(task(5, vec![3])).unwrap();
    assert_eq!(q.status_of(5), Some(TaskStatus::Failed));
}

#[test]
fn retryable_failure_uses_budget() {
    let mut q = TaskQueue::with_retry_budget(1);
    q.enqueue(task(1, vec![])).unwrap();
    assert_eq!(q.next_ready_for(AgentRole::Coder, 7), Some(1));
    q.report_failure(1, 7, true).unwrap();
    assert_eq!(q.status_of(1), Some(TaskStatus::Ready));
    assert_eq!(q.assignee_of(1), None);
    assert_eq!(q.next_ready_for(AgentRole::Coder, 8), Some(1));
    q.report_failure(1, 8, true).unwrap();
    assert_eq!(q.status_of(1), Some(TaskStatus::Failed));
}

#[test]
fn releasing_an_agent_requeues_its_task() {
    let mut q = TaskQueue::new();
    q.enqueue(task(1, vec![])).unwrap();
    q.enqueue(task(2, vec![])).unwrap();
    assert_eq!(q.next_ready_for(AgentRole::Coder, 7), Some(1));
    assert_eq!(q.next_ready_for(AgentRole::Coder, 8), Some(2));
    q.release_agent(7);
    assert_eq!(q.status_of(1), Some(TaskStatus::Ready));
    assert_eq!(q.status_of(2), Some(TaskStatus::Assigned));
    q.release_agent(7);
    assert_eq!(q.status_of(1), Some(TaskStatus::Ready));
    assert_eq!(q.in_flight(), 1);
    assert_eq!(q.len(), 2);
}

#[test]
fn shared_state_writes_converge() {
    let w1 = || StateEntry { key: "k".to_string(), value: "a".to_string(), counter: 3, writer: 1 };
    let w2 = || StateEntry { key: "k".to_string(), value: "b".to_string(), counter: 3, writer: 2 };
    let w3 = || StateEntry { key: "k".to_string(), value: "c".to_string(), counter: 2, writer: 9 };
    let mut s1 = SharedState::new(1);
    assert!(s1.apply(w1()));
    assert!(s1.apply(w2()));
    assert!(!s1.apply(w3()));
    let mut s2 = SharedState::new(1);
    assert!(s2.apply(w3()));
    assert!(s2.apply(w2()));
    assert!(!s2.apply(w1()));
    assert!(!s2.apply(w2()));
    assert_eq!(s1.get("k"), Some("b".to_string()));
    assert_eq!(s2.get("k"), Some("b".to_string()));
    assert_eq!(s1.stamp_of("k"), Some((3, 2)));
}

#[test]
fn shared_state_set_stamps_counters() {
    let mut s = SharedState::new(4);
    assert_eq!(s.get("x"), None);
    assert_eq!(s.set("x", "1".to_string(), 10), Ok(1));
    assert_eq!(s.set("x", "2".to_string(), 11), Ok(2));
    assert_eq!(s.set("y", "3".to_string(), 10), Ok(1));
    assert_eq!(s.get("x"), Some("2".to_string()));
    assert_eq!(s.stamp_of("x"), Some((2, 11)));
    assert_eq!(s.len(), 2);
    assert_eq!(s.session_id(), 4);
    assert!(s.apply(StateEntry { key: "x".to_string(), value: "z".to_string(), counter: u64::MAX, writer: 1 }));
    assert_eq!(s.set("x", "3".to_string(), 1), Err(SwarmError::StateConflict));
    s.clear();
    assert_eq!(s.len(), 0);
}

#[test]
fn destroying_session_requeues_and_reports() {
    let mut mgr = manager(AgentPool::new());
    let p = spec(ParallelizationMode::Sequential, 1, Complexity::Small, false);
    let id = mgr.create_session("u".to_string(), &p).unwrap();
    let agents = mgr.agents_of(id);
    assert_eq!(agents.len(), 3);
    let coder = agents[1];
    assert_eq!(mgr.agent(coder).unwrap().role, AgentRole::Coder);
    mgr.add_task(id, task(1, vec![])).unwrap();
    assert_eq!(mgr.next_task_for(id, coder), Ok(Some(1)));
    assert_eq!(mgr.agent(coder).unwrap().status, AgentStatus::Working);
    let status = mgr.get_session_status(id).unwrap();
    assert_eq!(status.agents_working, 1);
    assert_eq!(status.metrics.tasks_assigned, 1);
    let metrics = mgr.destroy_session(id).unwrap();
    assert_eq!(metrics.agents_spawned, 3);
    assert_eq!(metrics.tasks_in_progress, 0);
    assert_eq!(metrics.tasks_assigned, 1);
    assert!(mgr.agent(coder).is_none());
    assert_eq!(mgr.agents_of(id).len(), 0);
    assert_eq!(mgr.get_session_status(id).err(), Some(SwarmError::SessionNotFound));
    assert_eq!(mgr.destroy_session(id).err(), Some(SwarmError::SessionNotFound));
}

#[test]
fn paused_session_hands_out_nothing() {
    let mut mgr = manager(AgentPool::new());
    let p = spec(ParallelizationMode::Sequential, 1, Complexity::Small, false);
    let id = mgr.create_session("u".to_string(), &p).unwrap();
    let coder = mgr.agents_of(id)[1];
    mgr.add_task(id, task(1, vec![])).unwrap();
    mgr.pause_session(id).unwrap();
    assert_eq!(mgr.get_session_status(id).unwrap().status, SessionStatus::Paused);
    assert_eq!(mgr.next_task_for(id, coder), Ok(None));
    mgr.resume_session(id).unwrap();
    assert_eq!(mgr.get_session_status(id).unwrap().status, SessionStatus::Active);
    assert_eq!(mgr.next_task_for(id, coder), Ok(Some(1)));
    assert_eq!(mgr.pause_session(99).err(), Some(SwarmError::SessionNotFound));
    assert_eq!(mgr.resume_session(99).err(), Some(SwarmError::SessionNotFound));
}

#[test]
fn session_reports_completion_and_failure() {
    let mut mgr = manager(AgentPool::new());
    let p = spec(ParallelizationMode::Sequential, 1, Complexity::Small, false);
    let id = mgr.create_session("u".to_string(), &p).unwrap();
    let coder = mgr.agents_of(id)[1];
    mgr.add_task(id, task(1, vec![])).unwrap();
    mgr.add_task(id, task(2, vec![1])).unwrap();
    mgr.add_task(id, task(3, vec![2])).unwrap();
    assert_eq!(mgr.add_task(id, task(4, vec![4])), Err(SwarmError::CyclicDependency));
    assert_eq!(mgr.next_task_for(id, coder), Ok(Some(1)));
    mgr.complete_task(id, 1, coder).unwrap();
    assert_eq!(mgr.task_status(id, 2), Some(TaskStatus::Ready));
    assert_eq!(mgr.agent(coder).unwrap().status, AgentStatus::Idle);
    assert_eq!(mgr.next_task_for(id, coder), Ok(Some(2)));
    mgr.fail_task(id, 2, coder, false).unwrap();
    assert_eq!(mgr.task_status(id, 3), Some(TaskStatus::Failed));
    let m = mgr.get_session_status(id).unwrap().metrics;
    assert_eq!((m.tasks_assigned, m.tasks_completed, m.tasks_failed), (2, 1, 1));
}

#[test]
fn terminating_agent_requeues_its_task() {
    let mut mgr = manager(AgentPool::new());
    let p = spec(ParallelizationMode::Sequential, 1, Complexity::Small, false);
    let id = mgr.create_session("u".to_string(), &p).unwrap();
    let agents = mgr.agents_of(id);
    let coder = agents[1];
    let tester = agents[2];
    mgr.add_task(id, task(1, vec![])).unwrap();
    assert_eq!(mgr.next_task_for(id, coder), Ok(Some(1)));
    mgr.terminate_agent(coder).unwrap();
    assert_eq!(mgr.task_status(id, 1), Some(TaskStatus::Ready));
    assert!(mgr.agent(coder).is_none());
    mgr.terminate_agent(coder).unwrap();
    assert_eq!(mgr.next_task_for(id, coder), Ok(None));
    assert_eq!(mgr.next_task_for(id, tester), Ok(Some(1)));
}

#[test]
fn agent_pool_spawns_fresh_ids() {
    let mut pool = AgentPool::with_capacity(2);
    let a = pool.spawn_agent(1, AgentRole::Coder, ModelPreference::ClaudeOpus45).unwrap();
    let b = pool.spawn_agent(1, AgentRole::Tester, ModelPreference::Gemini3Pro).unwrap();
    assert_ne!(a.id, b.id);
    assert_eq!((a.id >> 76) & 0xf, 4);
    assert_eq!(a.status, AgentStatus::Idle);
    assert_eq!(pool.spawn_agent(1, AgentRole::Coder, ModelPreference::GPT51).err(), Some(SwarmError::AgentSpawnFailed));
    assert_eq!(pool.spawn_with_id(a.id, 1, AgentRole::Coder, ModelPreference::GPT51).err(), Some(SwarmError::AgentSpawnFailed));
    pool.terminate_agent(a.id).unwrap();
    pool.terminate_agent(a.id).unwrap();
    assert_eq!(pool.len(), 1);
    assert!(pool.get(a.id).is_none());
}

#[test]
fn agent_state_machine() {
    assert_eq!(next_status(AgentStatus::Idle, AgentEvent::TaskReceived), Some(AgentStatus::Working));
    assert_eq!(next_status(AgentStatus::Working, AgentEvent::TaskFinished), Some(AgentStatus::Idle));
    assert_eq!(next_status(AgentStatus::Working, AgentEvent::ResourceWait), Some(AgentStatus::Blocked));
    assert_eq!(next_status(AgentStatus::Blocked, AgentEvent::Unblocked), Some(AgentStatus::Idle));
    assert_eq!(next_status(AgentStatus::Blocked, AgentEvent::Fatal), Some(AgentStatus::Failed));
    assert_eq!(next_status(AgentStatus::Failed, AgentEvent::Unblocked), None);
    assert_eq!(next_status(AgentStatus::Idle, AgentEvent::TaskFinished), None);
}

#[test]
fn error_messages() {
    assert_eq!(SwarmError::SessionNotFound.message(), "Session not found");
    assert_eq!(SwarmError::CyclicDependency.message(), "Cyclic task dependency");
}

#[test]
fn dequeue_ignores_roles() {
    let mut q = TaskQueue::new();
    let mut a = task(1, vec![]);
    a.role = Some(AgentRole::Browser);
    a.priority = 2;
    q.enqueue(a).unwrap();
    q.enqueue(task(2, vec![])).unwrap();
    q.enqueue(task(3, vec![2])).unwrap();
    assert_eq!(q.dequeue(5), Some(1));
    assert_eq!(q.dequeue(5), Some(2));
    assert_eq!(q.dequeue(5), None);
    assert!(!q.all_completed());
}

#[test]
fn session_completes_with_its_last_task() {
    let mut mgr = manager(AgentPool::new());
    let p = spec(ParallelizationMode::Sequential, 1, Complexity::Small, false);
    let id = mgr.create_session("u".to_string(), &p).unwrap();
    let coder = mgr.agents_of(id)[1];
    mgr.add_task(id, task(1, vec![])).unwrap();
    assert_eq!(mgr.next_task_for(id, coder), Ok(Some(1)));
    mgr.complete_task(id, 1, coder).unwrap();
    assert_eq!(mgr.get_session_status(id).unwrap().status, SessionStatus::Completed);
    assert_eq!(mgr.complete_task(id, 1, coder), Err(SwarmError::TaskNotAssigned));
    assert_eq!(mgr.complete_task(42, 1, coder), Err(SwarmError::SessionNotFound));
}

#[test]
fn agent_events_show_in_the_report() {
    let mut mgr = manager(AgentPool::new());
    let p = spec(ParallelizationMode::Sequential, 1, Complexity::Small, false);
    let id = mgr.create_session("u".to_string(), &p).unwrap();
    let agents = mgr.agents_of(id);
    let (planner, coder, tester) = (agents[0], agents[1], agents[2]);
    mgr.add_task(id, task(1, vec![])).unwrap();
    assert_eq!(mgr.next_task_for(id, coder), Ok(Some(1)));
    assert_eq!(mgr.agent_event(planner, AgentEvent::ResourceWait), Ok(AgentStatus::Blocked));
    assert_eq!(mgr.agent_event(coder, AgentEvent::Fatal), Ok(AgentStatus::Failed));
    assert_eq!(mgr.task_status(id, 1), Some(TaskStatus::Ready));
    assert_eq!(mgr.agent_event(coder, AgentEvent::Unblocked), Err(SwarmError::TaskExecutionFailed));
    assert_eq!(mgr.agent_event(12345, AgentEvent::Fatal), Err(SwarmError::TaskExecutionFailed));
    let r = mgr.get_session_status(id).unwrap();
    assert_eq!((r.agents_idle, r.agents_working, r.agents_blocked, r.agents_failed), (1, 0, 1, 1));
    assert_eq!(r.agent_count, 3);
    assert_eq!(mgr.fail_if_stranded(id), Ok(false));
    assert_eq!(mgr.agent_event(planner, AgentEvent::Fatal), Ok(AgentStatus::Failed));
    assert_eq!(mgr.agent_event(tester, AgentEvent::Fatal), Ok(AgentStatus::Failed));
    assert_eq!(mgr.fail_if_stranded(id), Ok(true));
    assert_eq!(mgr.get_session_status(id).unwrap().status, SessionStatus::Failed);
    assert_eq!(mgr.fail_if_stranded(99), Err(SwarmError::SessionNotFound));
}

#[test]
fn failed_session_is_terminal() {
    let mut mgr = manager(AgentPool::new());
    let p = spec(ParallelizationMode::Sequential, 1, Complexity::Small, false);
    let id = mgr.create_session("u".to_string(), &p).unwrap();
    mgr.pause_session(id).unwrap();
    mgr.fail_session(id).unwrap();
    assert_eq!(mgr.get_session_status(id).unwrap().status, SessionStatus::Failed);
    mgr.resume_session(id).unwrap();
    assert_eq!(mgr.get_session_status(id).unwrap().status, SessionStatus::Failed);
    assert_eq!(mgr.fail_session(99).err(), Some(SwarmError::SessionNotFound));
}
