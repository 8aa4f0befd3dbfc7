use vstd::prelude::*;

use crate::agent_pool::{count_agents, has_agent, AgentEvent, AgentPool};
use crate::outside::{fresh_id, now_millis};
use crate::shared_state::SharedState;
use crate::sizing::{plan_agents, plan_for, AgentPlan};
use crate::task_queue::{after_completion, after_failure, has_id, Task, TaskQueue, TaskSlot, TaskStatus};
use crate::types::{
    AgentId, AgentRole, AgentStatus, ModelPreference, ProjectSpec, SessionId, SessionStatus, SwarmError,
    TaskId, UserId,
};

verus! {

/// Aggregate counters of a session.
#[derive(Clone, Copy, PartialEq, Eq, Structural, Debug)]
pub struct SessionMetrics {
    pub tasks_assigned: usize,
    pub tasks_completed: usize,
    pub tasks_failed: usize,
    pub tasks_in_progress: usize,
    pub total_cost: u64,
    pub total_duration_sec: u64,
    pub agents_spawned: usize,
}

/// What `get_session_status` reports of a session.
#[derive(Clone, Copy, PartialEq, Eq, Structural, Debug)]
pub struct SessionStatusReport {
    pub session_id: SessionId,
    pub status: SessionStatus,
    pub metrics: SessionMetrics,
    pub agent_count: usize,
    pub agents_idle: usize,
    pub agents_working: usize,
    pub agents_blocked: usize,
    pub agents_failed: usize,
}

/// Handle on a durable store that may back the shared state; the
/// in-memory state space needs nothing from it.
pub struct RedisClient {}

/// Handle on the clients of the model backends, which the execution
/// loops outside this library use.
pub struct ModelClients {}

/// Allocates and releases the shared state spaces of sessions.
pub struct StateManager {
    redis: RedisClient,
}

impl StateManager {
    /// A state manager over the store `redis`.
    pub fn new(redis: RedisClient) -> (r: StateManager) {
        StateManager { redis }
    }

    /// A fresh, empty state space for `session_id`.
    pub fn create_state_space(&self, session_id: SessionId) -> (r: Result<SharedState, SwarmError>)
        ensures
            r is Ok,
            r->Ok_0.wf(),
            r->Ok_0.view() == Map::<Seq<char>, crate::shared_state::Versioned>::empty(),
            r->Ok_0.session() == session_id,
    {
        Ok(SharedState::new(session_id))
    }

    /// Releases every key of `state`.
    pub fn destroy_state_space(&self, state: &mut SharedState) -> (r: Result<(), SwarmError>)
        ensures
            r is Ok,
            final(state).wf(),
            final(state).view() == Map::<Seq<char>, crate::shared_state::Versioned>::empty(),
            final(state).session() == old(state).session(),
    {
        state.clear();
        Ok(())
    }
}

/// One job: its owner, status, task graph, shared state and counters.
pub struct Session {
    pub id: SessionId,
    pub user_id: UserId,
    pub created_at: i64,
    pub status: SessionStatus,
    pub shared_state: SharedState,
    pub tasks: TaskQueue,
    pub metrics: SessionMetrics,
}

/// Some session of `s` has identity `id`.
pub open spec fn has_session(s: Seq<Session>, id: SessionId) -> bool {
    exists|i: int| 0 <= i < s.len() && s[i].id == id
}

/// Metrics that are all zero but the number of agents spawned.
pub open spec fn fresh_metrics(spawned: usize) -> SessionMetrics {
    SessionMetrics {
        tasks_assigned: 0,
        tasks_completed: 0,
        tasks_failed: 0,
        tasks_in_progress: 0,
        total_cost: 0,
        total_duration_sec: 0,
        agents_spawned: spawned,
    }
}

/// The role that the `k`-th agent spawned for a plan has.
pub open spec fn planned_role(p: AgentPlan, k: int) -> AgentRole {
    if k < p.planners {
        AgentRole::Planner
    } else if k < p.planners + p.coders {
        AgentRole::Coder
    } else if k < p.planners + p.coders + p.testers {
        AgentRole::Tester
    } else {
        AgentRole::Browser
    }
}

/// The model that the `k`-th agent spawned for a plan prefers.
pub open spec fn planned_model(p: AgentPlan, k: int) -> ModelPreference {
    match planned_role(p, k) {
        AgentRole::Planner => ModelPreference::GPT51,
        AgentRole::Coder => ModelPreference::ClaudeOpus45,
        AgentRole::Tester => ModelPreference::Gemini3Pro,
        _ => ModelPreference::NoModel,
    }
}

/// Agent `h` is the fresh `k`-th agent of plan `p` for session `id`.
pub open spec fn planned_agent(h: crate::agent_pool::AgentHandle, id: SessionId, p: AgentPlan, k: int) -> bool {
    &&& h.session_id == id
    &&& h.status == AgentStatus::Idle
    &&& h.role == planned_role(p, k)
    &&& h.model == planned_model(p, k)
    &&& h.tasks_completed == 0
    &&& h.cost_incurred == 0
}

/// Replacing a session by one with the same identity and well-formed parts
/// keeps the registry well formed.
proof fn lemma_sessions_update(ss0: Seq<Session>, i: int, s: Session)
    requires
        0 <= i < ss0.len(),
        forall|a: int, b: int| 0 <= a < ss0.len() && 0 <= b < ss0.len() && a != b ==> ss0[a].id != ss0[b].id,
        forall|x: int| 0 <= x < ss0.len() ==> (#[trigger] ss0[x]).tasks.wf() && ss0[x].shared_state.wf(),
        s.id == ss0[i].id,
        s.tasks.wf(),
        s.shared_state.wf(),
    ensures
        forall|a: int, b: int| 0 <= a < ss0.len() && 0 <= b < ss0.len() && a != b ==> ss0.update(i, s)[a].id
            != ss0.update(i, s)[b].id,
        forall|x: int| 0 <= x < ss0.len() ==> (#[trigger] ss0.update(i, s)[x]).tasks.wf() && ss0.update(i, s)[x].shared_state.wf(),
{
    let ss1 = ss0.update(i, s);
    assert forall|a: int, b: int| 0 <= a < ss0.len() && 0 <= b < ss0.len() && a != b implies ss1[a].id != ss1[b].id by {
        assert(ss1[a].id == ss0[a].id);
        assert(ss1[b].id == ss0[b].id);
    }
    assert forall|x: int| 0 <= x < ss0.len() implies (#[trigger] ss1[x]).tasks.wf() && ss1[x].shared_state.wf() by {
        assert(ss0[x].tasks.wf());
    }
}

/// `n + 1`, or `n` when that would not fit.
pub open spec fn bump(n: usize) -> usize {
    if n < usize::MAX { (n + 1) as usize } else { n }
}

fn bump_count(n: usize) -> (r: usize)
    ensures
        r == bump(n),
{
    if n < usize::MAX { n + 1 } else { n }
}

/// Top-level coordinator: creates, reports on, pauses, resumes and
/// destroys sessions, and routes their agents' work to the task graphs.
pub struct SessionManager {
    sessions: Vec<Session>,
    agent_pool: AgentPool,
    state_manager: StateManager,
}

impl SessionManager {
    /// The live sessions, in creation order.
    pub closed spec fn sessions(&self) -> Seq<Session> {
        self.sessions@
    }

    /// The live agents of all sessions, in spawn order.
    pub closed spec fn agents(&self) -> Seq<crate::agent_pool::AgentHandle> {
        self.agent_pool.view()
    }

    /// How many agents the pool may hold.
    pub closed spec fn agent_cap(&self) -> usize {
        self.agent_pool.cap()
    }

    pub closed spec fn wf(&self) -> bool {
        &&& self.agent_pool.wf()
        &&& forall|i: int, j: int| 0 <= i < self.sessions@.len() && 0 <= j < self.sessions@.len() && i != j
            ==> self.sessions@[i].id != self.sessions@[j].id
        &&& forall|i: int| 0 <= i < self.sessions@.len() ==> (#[trigger] self.sessions@[i]).tasks.wf()
            && self.sessions@[i].shared_state.wf()
    }

    /// What a well-formed manager guarantees: unique session identities,
    /// well-formed task graphs and state spaces, and unique agent identities.
    pub proof fn lemma_registry(&self)
        requires
            self.wf(),
        ensures
            forall|i: int, j: int| 0 <= i < self.sessions().len() && 0 <= j < self.sessions().len() && i != j
                ==> self.sessions()[i].id != self.sessions()[j].id,
            forall|i: int| 0 <= i < self.sessions().len() ==> (#[trigger] self.sessions()[i]).tasks.wf()
                && self.sessions()[i].shared_state.wf(),
            forall|i: int, j: int| 0 <= i < self.agents().len() && 0 <= j < self.agents().len() && i != j
                ==> self.agents()[i].id != self.agents()[j].id,
            self.agents().len() <= self.agent_cap(),
    {
        self.agent_pool.lemma_bounded();
    }

    pub fn new(agent_pool: AgentPool, state_manager: StateManager) -> (r: SessionManager)
        requires
            agent_pool.wf(),
        ensures
            r.wf(),
            r.sessions().len() == 0,
            r.agents() == agent_pool.view(),
    {
        SessionManager { sessions: Vec::new(), agent_pool, state_manager }
    }

    /// Position of the session `id`.
    fn find(&self, id: SessionId) -> (r: Option<usize>)
        ensures
            match r {
                Some(i) => i < self.sessions@.len() && self.sessions@[i as int].id == id,
                None => !has_session(self.sessions@, id),
            },
    {
        let mut i: usize = 0;
        while i < self.sessions.len()
            invariant
                i <= self.sessions@.len(),
                forall|j: int| 0 <= j < i ==> self.sessions@[j].id != id,
            decreases self.sessions@.len() - i,
        {
            if self.sessions[i].id == id {
                return Some(i);
            }
            i = i + 1;
        }
        None
    }

    /// Creates a session under a fresh random identity, stamped with the
    /// current time; see `create_session_with`.
    pub fn create_session(&mut self, user_id: UserId, project_spec: &ProjectSpec) -> (r: Result<SessionId, SwarmError>)
        requires
            old(self).wf(),
        ensures
            final(self).wf(),
            project_spec.replication_count == 0 ==> r == Err::<SessionId, SwarmError>(SwarmError::InvalidSpec),
            r is Err ==> final(self).sessions() == old(self).sessions() && final(self).agents() == old(self).agents(),
            project_spec.replication_count != 0 && r is Err ==> r == Err::<SessionId, SwarmError>(SwarmError::StateError)
                || r == Err::<SessionId, SwarmError>(SwarmError::AgentSpawnFailed),
            project_spec.replication_count != 0 && old(self).agents().len() + plan_for(*project_spec).total_spec()
                > old(self).agent_cap() ==> r is Err,
            r is Ok ==> {
                let p = plan_for(*project_spec);
                let n0 = old(self).agents().len();
                let s = final(self).sessions().last();
                &&& !has_session(old(self).sessions(), r->Ok_0)
                &&& final(self).sessions().len() == old(self).sessions().len() + 1
                &&& final(self).sessions().drop_last() == old(self).sessions()
                &&& s.id == r->Ok_0 && s.user_id == user_id
                &&& s.status == SessionStatus::Active
                &&& s.metrics == fresh_metrics(p.total_spec() as usize)
                &&& s.tasks.slots().len() == 0
                &&& s.shared_state.view().dom().len() == 0
                &&& final(self).agents().len() == n0 + p.total_spec()
                &&& final(self).agents().take(n0 as int) == old(self).agents()
                &&& forall|k: int| n0 <= k < final(self).agents().len() ==>
                    planned_agent(#[trigger] final(self).agents()[k], r->Ok_0, p, k - n0)
            },
    {
        let id = fresh_id();
        let created_at = now_millis();
        self.create_session_with(id, created_at, user_id, project_spec)
    }

    /// Creates the session `id` for `user_id`: sizes its agents from
    /// `project_spec`, spawns them, and starts it `Active` with an empty
    /// task graph and an empty state space.
    ///
    /// Refused with `InvalidSpec` for a replication count of 0, with
    /// `StateError` when `id` is taken, and with `AgentSpawnFailed` when the
    /// pool cannot take the planned agents; a refusal changes nothing.
    pub fn create_session_with(
        &mut self,
        id: SessionId,
        created_at: i64,
        user_id: UserId,
        project_spec: &ProjectSpec,
    ) -> (r: Result<SessionId, SwarmError>)
        requires
            old(self).wf(),
        ensures
            final(self).wf(),
            project_spec.replication_count == 0 <==> r == Err::<SessionId, SwarmError>(SwarmError::InvalidSpec),
            (project_spec.replication_count != 0 && has_session(old(self).sessions(), id))
                <==> r == Err::<SessionId, SwarmError>(SwarmError::StateError),
            project_spec.replication_count != 0 && !has_session(old(self).sessions(), id) && r is Err
                ==> r == Err::<SessionId, SwarmError>(SwarmError::AgentSpawnFailed),
            project_spec.replication_count != 0 && !has_session(old(self).sessions(), id)
                && old(self).agents().len() + plan_for(*project_spec).total_spec() > old(self).agent_cap()
                ==> r == Err::<SessionId, SwarmError>(SwarmError::AgentSpawnFailed),
            r is Err ==> final(self).sessions() == old(self).sessions() && final(self).agents() == old(self).agents(),
            r is Ok ==> {
                let p = plan_for(*project_spec);
                let n0 = old(self).agents().len();
                let s = final(self).sessions().last();
                &&& r->Ok_0 == id
                &&& final(self).sessions().len() == old(self).sessions().len() + 1
                &&& final(self).sessions().drop_last() == old(self).sessions()
                &&& s.id == id && s.user_id == user_id && s.created_at == created_at
                &&& s.status == SessionStatus::Active
                &&& s.metrics == fresh_metrics(p.total_spec() as usize)
                &&& s.tasks.slots().len() == 0
                &&& s.shared_state.view().dom().len() == 0
                &&& final(self).agents().len() == n0 + p.total_spec()
                &&& final(self).agents().take(n0 as int) == old(self).agents()
                &&& forall|k: int| n0 <= k < final(self).agents().len() ==>
                    planned_agent(#[trigger] final(self).agents()[k], id, p, k - n0)
            },
    {
        let plan = match plan_agents(project_spec) {
            Ok(p) => p,
            Err(e) => {
                return Err(e);
            },
        };
        if self.find(id).is_some() {
            return Err(SwarmError::StateError);
        }
        let total = plan.total();
        let n0 = self.agent_pool.len();
        if n0 > self.agent_pool.capacity() || total > self.agent_pool.capacity() - n0 {
            return Err(SwarmError::AgentSpawnFailed);
        }
        let shared_state = match self.state_manager.create_state_space(id) {
            Ok(s) => s,
            Err(e) => {
                return Err(e);
            },
        };
        let ghost a0 = self.agent_pool.view();
        let spawned = self.spawn_plan(id, &plan);
        if spawned.is_err() {
            self.agent_pool.truncate(n0);
            return Err(SwarmError::AgentSpawnFailed);
        }
        let session = Session {
            id,
            user_id,
            created_at,
            status: SessionStatus::Active,
            shared_state,
            tasks: TaskQueue::new(),
            metrics: SessionMetrics {
                tasks_assigned: 0,
                tasks_completed: 0,
                tasks_failed: 0,
                tasks_in_progress: 0,
                total_cost: 0,
                total_duration_sec: 0,
                agents_spawned: total,
            },
        };
        let ghost ss0 = self.sessions@;
        self.sessions.push(session);
        proof {
            assert(self.sessions@.drop_last() =~= ss0);
            assert forall|i: int| 0 <= i < self.sessions@.len() implies (#[trigger] self.sessions@[i]).tasks.wf()
                && self.sessions@[i].shared_state.wf() by {
                if i < ss0.len() {
                    assert(self.sessions@[i] == ss0[i]);
                }
            }
            assert(self.sessions@.last().shared_state.view() =~= Map::empty());
            assert(self.sessions@.last().shared_state.view().dom() =~= Set::empty());
        }
        Ok(id)
    }

    /// Spawns the agents of `plan` for the session `id`: the planner, the
    /// coders, the testers, then the browser agent.
    fn spawn_plan(&mut self, id: SessionId, plan: &AgentPlan) -> (r: Result<(), SwarmError>)
        requires
            old(self).agent_pool.wf(),
            old(self).agent_pool.view().len() + plan.total_spec() <= old(self).agent_pool.cap(),
        ensures
            final(self).agent_pool.wf(),
            final(self).sessions == old(self).sessions,
            final(self).agent_pool.cap() == old(self).agent_pool.cap(),
            final(self).agent_pool.view().len() >= old(self).agent_pool.view().len(),
            final(self).agent_pool.view().take(old(self).agent_pool.view().len() as int) == old(self).agent_pool.view(),
            r is Ok ==> {
                let n0 = old(self).agent_pool.view().len();
                &&& final(self).agent_pool.view().len() == n0 + plan.total_spec()
                &&& forall|k: int| n0 <= k < final(self).agent_pool.view().len() ==>
                    planned_agent(#[trigger] final(self).agent_pool.view()[k], id, *plan, k - n0)
            },
    {
        let ghost a0 = self.agent_pool.view();
        let ghost n0 = a0.len();
        let r1 = self.agent_pool.spawn_many(id, AgentRole::Planner, ModelPreference::GPT51, plan.planners);
        if r1.is_err() {
            return r1;
        }
        let ghost a1 = self.agent_pool.view();
        let r2 = self.agent_pool.spawn_many(id, AgentRole::Coder, ModelPreference::ClaudeOpus45, plan.coders);
        if r2.is_err() {
            proof {
                assert(self.agent_pool.view().take(n0 as int) =~= self.agent_pool.view().take(a1.len() as int).take(n0 as int));
            }
            return r2;
        }
        let ghost a2 = self.agent_pool.view();
        let r3 = self.agent_pool.spawn_many(id, AgentRole::Tester, ModelPreference::Gemini3Pro, plan.testers);
        if r3.is_err() {
            proof {
                assert(self.agent_pool.view().take(n0 as int) =~= self.agent_pool.view().take(a2.len() as int).take(n0 as int));
                assert(a2.take(n0 as int) =~= a2.take(a1.len() as int).take(n0 as int));
            }
            return r3;
        }
        let ghost a3 = self.agent_pool.view();
        let r4 = self.agent_pool.spawn_many(id, AgentRole::Browser, ModelPreference::NoModel, plan.browsers);
        let ghost a4 = self.agent_pool.view();
        proof {
            assert(a4.take(n0 as int) =~= a4.take(a3.len() as int).take(n0 as int));
            assert(a3.take(n0 as int) =~= a3.take(a2.len() as int).take(n0 as int));
            assert(a2.take(n0 as int) =~= a2.take(a1.len() as int).take(n0 as int));
            if r4.is_ok() {
                assert forall|k: int| n0 <= k < a4.len() implies planned_agent(#[trigger] a4[k], id, *plan, k - n0) by {
                    if k < a3.len() {
                        assert(a4[k] == a4.take(a3.len() as int)[k]);
                        if k < a2.len() {
                            assert(a3[k] == a3.take(a2.len() as int)[k]);
                            if k < a1.len() {
                                assert(a2[k] == a2.take(a1.len() as int)[k]);
                            }
                        }
                    }
                }
            }
        }
        r4
    }

    /// Status, metrics and agent breakdown of the session `id`.
    pub fn get_session_status(&self, id: SessionId) -> (r: Result<SessionStatusReport, SwarmError>)
        requires
            self.wf(),
        ensures
            r is Err == !has_session(self.sessions(), id),
            r is Err ==> r == Err::<SessionStatusReport, SwarmError>(SwarmError::SessionNotFound),
            r is Ok ==> exists|i: int| 0 <= i < self.sessions().len() && {
                let s = #[trigger] self.sessions()[i];
                let a = self.agents();
                &&& s.id == id
                &&& r->Ok_0 == (SessionStatusReport {
                    session_id: id,
                    status: s.status,
                    metrics: s.metrics,
                    agent_count: r->Ok_0.agent_count,
                    agents_idle: count_agents(a, id, AgentStatus::Idle) as usize,
                    agents_working: count_agents(a, id, AgentStatus::Working) as usize,
                    agents_blocked: count_agents(a, id, AgentStatus::Blocked) as usize,
                    agents_failed: count_agents(a, id, AgentStatus::Failed) as usize,
                })
                &&& r->Ok_0.agent_count == count_agents(a, id, AgentStatus::Idle) + count_agents(
                    a,
                    id,
                    AgentStatus::Working,
                ) + count_agents(a, id, AgentStatus::Blocked) + count_agents(a, id, AgentStatus::Failed)
            },
    {
        let i = match self.find(id) {
            Some(i) => i,
            None => {
                return Err(SwarmError::SessionNotFound);
            },
        };
        let s = &self.sessions[i];
        let idle = self.agent_pool.count_with_status(id, AgentStatus::Idle);
        let working = self.agent_pool.count_with_status(id, AgentStatus::Working);
        let blocked = self.agent_pool.count_with_status(id, AgentStatus::Blocked);
        let failed = self.agent_pool.count_with_status(id, AgentStatus::Failed);
        proof {
            crate::agent_pool::lemma_count_total(self.agent_pool.view(), id);
            self.agent_pool.lemma_bounded();
        }
        Ok(SessionStatusReport {
            session_id: id,
            status: s.status,
            metrics: s.metrics,
            agent_count: idle + working + blocked + failed,
            agents_idle: idle,
            agents_working: working,
            agents_blocked: blocked,
            agents_failed: failed,
        })
    }

    /// Sets the status of session `id` to `to` if it is `from`.
    fn switch_status(&mut self, id: SessionId, from: SessionStatus, also_from: SessionStatus, to: SessionStatus) -> (r: Result<(), SwarmError>)
        requires
            old(self).wf(),
        ensures
            final(self).wf(),
            final(self).agents() == old(self).agents(),
            r is Err == !has_session(old(self).sessions(), id),
            r is Err ==> r == Err::<(), SwarmError>(SwarmError::SessionNotFound) && final(self).sessions() == old(
                self,
            ).sessions(),
            r is Ok ==> exists|i: int| 0 <= i < old(self).sessions().len() && #[trigger] old(self).sessions()[i].id == id
                && final(self).sessions() == old(self).sessions().update(i, Session {
                    status: if (old(self).sessions()[i].status == from || old(self).sessions()[i].status == also_from) { to } else { old(self).sessions()[i].status },
                    ..old(self).sessions()[i]
                }),
    {
        let i = match self.find(id) {
            Some(i) => i,
            None => {
                return Err(SwarmError::SessionNotFound);
            },
        };
        let ghost ss0 = self.sessions@;
        let mut s = self.sessions.remove(i);
        if s.status == from || s.status == also_from {
            s.status = to;
        }
        proof {
            assert(s == Session {
                status: if ss0[i as int].status == from || ss0[i as int].status == also_from { to } else { ss0[i as int].status },
                ..ss0[i as int]
            });
        }
        self.sessions.insert(i, s);
        proof {
            assert(self.sessions@ =~= ss0.update(i as int, s));
            assert(ss0[i as int].id == id);
            assert(self.sessions() == old(self).sessions().update(i as int, Session {
                status: if ss0[i as int].status == from || ss0[i as int].status == also_from { to } else { ss0[i as int].status },
                ..ss0[i as int]
            }));
            assert forall|a: int, b: int| 0 <= a < self.sessions@.len() && 0 <= b < self.sessions@.len() && a != b
                implies self.sessions@[a].id != self.sessions@[b].id by {
                assert(self.sessions@[a].id == ss0[a].id);
                assert(self.sessions@[b].id == ss0[b].id);
            }
            assert forall|x: int| 0 <= x < self.sessions@.len() implies (#[trigger] self.sessions@[x]).tasks.wf()
                && self.sessions@[x].shared_state.wf() by {
                assert(ss0[x].tasks.wf());
            }
        }
        Ok(())
    }

    /// Pauses session `id`: an `Active` session becomes `Paused` and hands
    /// out no new task; a session in another status is left as it is.
    /// An unknown session is refused with `SessionNotFound`.
    pub fn pause_session(&mut self, id: SessionId) -> (r: Result<(), SwarmError>)
        requires
            old(self).wf(),
        ensures
            final(self).wf(),
            final(self).agents() == old(self).agents(),
            r is Err == !has_session(old(self).sessions(), id),
            r is Err ==> r == Err::<(), SwarmError>(SwarmError::SessionNotFound) && final(self).sessions() == old(
                self,
            ).sessions(),
            r is Ok ==> exists|i: int| 0 <= i < old(self).sessions().len() && #[trigger] old(self).sessions()[i].id == id
                && final(self).sessions() == old(self).sessions().update(i, Session {
                    status: if old(self).sessions()[i].status == SessionStatus::Active {
                        SessionStatus::Paused
                    } else {
                        old(self).sessions()[i].status
                    },
                    ..old(self).sessions()[i]
                }),
    {
        self.switch_status(id, SessionStatus::Active, SessionStatus::Active, SessionStatus::Paused)
    }

    /// Resumes session `id`: a `Paused` session becomes `Active`; a session
    /// in another status is left as it is. An unknown session is refused
    /// with `SessionNotFound`.
    pub fn resume_session(&mut self, id: SessionId) -> (r: Result<(), SwarmError>)
        requires
            old(self).wf(),
        ensures
            final(self).wf(),
            final(self).agents() == old(self).agents(),
            r is Err == !has_session(old(self).sessions(), id),
            r is Err ==> r == Err::<(), SwarmError>(SwarmError::SessionNotFound) && final(self).sessions() == old(
                self,
            ).sessions(),
            r is Ok ==> exists|i: int| 0 <= i < old(self).sessions().len() && #[trigger] old(self).sessions()[i].id == id
                && final(self).sessions() == old(self).sessions().update(i, Session {
                    status: if old(self).sessions()[i].status == SessionStatus::Paused {
                        SessionStatus::Active
                    } else {
                        old(self).sessions()[i].status
                    },
                    ..old(self).sessions()[i]
                }),
    {
        self.switch_status(id, SessionStatus::Paused, SessionStatus::Paused, SessionStatus::Active)
    }

    /// Marks session `id` as failed after an unrecoverable condition: an
    /// `Active` or `Paused` session becomes `Failed`, a terminal status; a
    /// session in another status is left as it is. An unknown session is
    /// refused with `SessionNotFound`.
    pub fn fail_session(&mut self, id: SessionId) -> (r: Result<(), SwarmError>)
        requires
            old(self).wf(),
        ensures
            final(self).wf(),
            final(self).agents() == old(self).agents(),
            r is Err == !has_session(old(self).sessions(), id),
            r is Err ==> r == Err::<(), SwarmError>(SwarmError::SessionNotFound) && final(self).sessions() == old(
                self,
            ).sessions(),
            r is Ok ==> exists|i: int| 0 <= i < old(self).sessions().len() && #[trigger] old(self).sessions()[i].id == id
                && final(self).sessions() == old(self).sessions().update(i, Session {
                    status: if old(self).sessions()[i].status == SessionStatus::Active || old(self).sessions()[i].status
                        == SessionStatus::Paused {
                        SessionStatus::Failed
                    } else {
                        old(self).sessions()[i].status
                    },
                    ..old(self).sessions()[i]
                }),
    {
        self.switch_status(id, SessionStatus::Active, SessionStatus::Paused, SessionStatus::Failed)
    }

    /// Fails session `id` when it is stranded: it is `Active` or `Paused`,
    /// none of its agents is idle, working or blocked, and some task is not
    /// completed, so nothing left can finish the work. Returns whether it
    /// failed the session. An unknown session is refused with
    /// `SessionNotFound`.
    pub fn fail_if_stranded(&mut self, id: SessionId) -> (r: Result<bool, SwarmError>)
        requires
            old(self).wf(),
        ensures
            final(self).wf(),
            final(self).agents() == old(self).agents(),
            r is Err == !has_session(old(self).sessions(), id),
            r is Err ==> r == Err::<bool, SwarmError>(SwarmError::SessionNotFound),
            forall|i: int| 0 <= i < old(self).sessions().len() && #[trigger] old(self).sessions()[i].id == id ==> {
                let s0 = old(self).sessions()[i];
                let a = old(self).agents();
                let stranded = (s0.status == SessionStatus::Active || s0.status == SessionStatus::Paused)
                    && count_agents(a, id, AgentStatus::Idle) == 0 && count_agents(a, id, AgentStatus::Working) == 0
                    && count_agents(a, id, AgentStatus::Blocked) == 0
                    && exists|j: int| 0 <= j < s0.tasks.slots().len() && #[trigger] s0.tasks.slots()[j].status
                        != TaskStatus::Completed;
                &&& r == Ok::<bool, SwarmError>(stranded)
                &&& final(self).sessions() == if stranded {
                    old(self).sessions().update(i, Session { status: SessionStatus::Failed, ..s0 })
                } else {
                    old(self).sessions()
                }
            },
    {
        let i = match self.find(id) {
            Some(i) => i,
            None => {
                return Err(SwarmError::SessionNotFound);
            },
        };
        proof {
            assert forall|x: int| 0 <= x < self.sessions@.len() && #[trigger] self.sessions@[x].id == id implies x == i by {}
        }
        let st = self.sessions[i].status;
        let live = self.agent_pool.count_with_status(id, AgentStatus::Idle) == 0
            && self.agent_pool.count_with_status(id, AgentStatus::Working) == 0
            && self.agent_pool.count_with_status(id, AgentStatus::Blocked) == 0;
        let done = self.sessions[i].tasks.all_completed();
        if (st == SessionStatus::Active || st == SessionStatus::Paused) && live && !done {
            let _ = self.fail_session(id);
            Ok(true)
        } else {
            Ok(false)
        }
    }

    /// Destroys session `id`: returns its in-flight tasks to `Ready`,
    /// terminates all its agents, releases its state space and removes it.
    /// Returns its final metrics, with nothing left in progress. An unknown
    /// session is refused with `SessionNotFound`.
    pub fn destroy_session(&mut self, id: SessionId) -> (r: Result<SessionMetrics, SwarmError>)
        requires
            old(self).wf(),
        ensures
            final(self).wf(),
            r is Err == !has_session(old(self).sessions(), id),
            r is Err ==> r == Err::<SessionMetrics, SwarmError>(SwarmError::SessionNotFound) && final(self).sessions()
                == old(self).sessions() && final(self).agents() == old(self).agents(),
            r is Ok ==> exists|i: int| 0 <= i < old(self).sessions().len() && #[trigger] old(self).sessions()[i].id == id
                && final(self).sessions() == old(self).sessions().remove(i)
                && r->Ok_0 == (SessionMetrics { tasks_in_progress: 0, ..old(self).sessions()[i].metrics }),
            r is Ok ==> !has_session(final(self).sessions(), id),
            r is Ok ==> forall|k: int| 0 <= k < final(self).agents().len() ==> (#[trigger] final(self).agents()[k]).session_id
                != id,
            r is Ok ==> forall|k: int| 0 <= k < old(self).agents().len() && (#[trigger] old(self).agents()[k]).session_id
                != id ==> final(self).agents().contains(old(self).agents()[k]),
    {
        let i = match self.find(id) {
            Some(i) => i,
            None => {
                return Err(SwarmError::SessionNotFound);
            },
        };
        let ghost ss0 = self.sessions@;
        proof {
            assert(ss0[i as int].tasks.wf());
        }
        let mut s = self.sessions.remove(i);
        s.tasks.release_all();
        let in_flight = s.tasks.in_flight();
        self.agent_pool.remove_session(id);
        let _ = self.state_manager.destroy_state_space(&mut s.shared_state);
        let mut metrics = s.metrics;
        metrics.tasks_in_progress = in_flight;
        proof {
            let ss1 = self.sessions@;
            assert(ss1 =~= ss0.remove(i as int));
            assert forall|a: int, b: int| 0 <= a < ss1.len() && 0 <= b < ss1.len() && a != b
                implies ss1[a].id != ss1[b].id by {
                let a0 = if a < i { a } else { a + 1 };
                let b0 = if b < i { b } else { b + 1 };
                assert(ss1[a] == ss0[a0]);
                assert(ss1[b] == ss0[b0]);
            }
            assert forall|x: int| 0 <= x < ss1.len() implies (#[trigger] ss1[x]).tasks.wf() && ss1[x].shared_state.wf() by {
                let x0 = if x < i { x } else { x + 1 };
                assert(ss1[x] == ss0[x0]);
                assert(ss0[x0].tasks.wf());
            }
            assert forall|x: int| 0 <= x < ss1.len() implies ss1[x].id != id by {
                let x0 = if x < i { x } else { x + 1 };
                assert(ss1[x] == ss0[x0]);
            }
        }
        Ok(metrics)
    }

    /// Takes the session at `i` out of the registry, to be put back with
    /// `restore`.
    fn take(&mut self, i: usize) -> (r: Session)
        requires
            old(self).wf(),
            i < old(self).sessions@.len(),
        ensures
            r == old(self).sessions@[i as int],
            r.tasks.wf(),
            r.shared_state.wf(),
            final(self).sessions@ == old(self).sessions@.remove(i as int),
            final(self).agent_pool == old(self).agent_pool,
    {
        proof {
            assert(self.sessions@[i as int].tasks.wf());
        }
        self.sessions.remove(i)
    }

    /// Puts a session taken out with `take` back at `i`.
    fn restore(&mut self, i: usize, s: Session, Ghost(ss0): Ghost<Seq<Session>>)
        requires
            old(self).agent_pool.wf(),
            forall|a: int, b: int| 0 <= a < ss0.len() && 0 <= b < ss0.len() && a != b ==> ss0[a].id != ss0[b].id,
            forall|x: int| 0 <= x < ss0.len() ==> (#[trigger] ss0[x]).tasks.wf() && ss0[x].shared_state.wf(),
            i < ss0.len(),
            old(self).sessions@ == ss0.remove(i as int),
            s.id == ss0[i as int].id,
            s.tasks.wf(),
            s.shared_state.wf(),
        ensures
            final(self).wf(),
            final(self).sessions@ == ss0.update(i as int, s),
            final(self).agent_pool == old(self).agent_pool,
    {
        self.sessions.insert(i, s);
        proof {
            assert(self.sessions@ =~= ss0.update(i as int, s));
            lemma_sessions_update(ss0, i as int, s);
        }
    }

    /// Adds `task` to the task graph of session `session_id`; see
    /// `TaskQueue::enqueue` for when a task is refused. An unknown session
    /// is refused with `SessionNotFound`.
    pub fn add_task(&mut self, session_id: SessionId, task: Task) -> (r: Result<(), SwarmError>)
        requires
            old(self).wf(),
        ensures
            final(self).wf(),
            final(self).agents() == old(self).agents(),
            final(self).sessions().len() == old(self).sessions().len(),
            !has_session(old(self).sessions(), session_id) ==> r == Err::<(), SwarmError>(SwarmError::SessionNotFound),
            forall|i: int| 0 <= i < old(self).sessions().len() && #[trigger] old(self).sessions()[i].id == session_id ==> {
                let q0 = old(self).sessions()[i].tasks;
                let q1 = final(self).sessions()[i].tasks;
                &&& r is Ok ==> q1.slots().len() == q0.slots().len() + 1 && q1.slots().last().id == task.id
                    && q1.slots().drop_last() == q0.slots()
                &&& r is Err ==> q1.slots() == q0.slots()
                &&& (r is Ok) == (!crate::task_queue::has_id(q0.slots(), task.id) && !task.dependencies@.contains(task.id)
                    && forall|k: int| 0 <= k < task.dependencies@.len() ==> crate::task_queue::has_id(
                        q0.slots(),
                        #[trigger] task.dependencies@[k],
                    ))
            },
    {
        let i = match self.find(session_id) {
            Some(i) => i,
            None => {
                return Err(SwarmError::SessionNotFound);
            },
        };
        let ghost ss0 = self.sessions@;
        let ghost tid = task.id;
        let ghost tdeps = task.dependencies@;
        let mut s = self.take(i);
        let r = s.tasks.enqueue(task);
        proof {
            if r is Ok {
                assert(s.tasks.slots().drop_last() =~= ss0[i as int].tasks.slots());
            }
        }
        self.restore(i, s, Ghost(ss0));
        proof {
            assert forall|x: int| 0 <= x < ss0.len() && #[trigger] ss0[x].id == session_id implies x == i by {}
        }
        r
    }

    /// Hands the next task of session `session_id` to its agent `agent_id`.
    ///
    /// A session that is not `Active` (a paused one among them) hands out
    /// nothing, nor does an agent that is unknown, of another session, or
    /// not idle. Otherwise the task handed out is the one
    /// `TaskQueue::next_ready_for` picks for the agent's role; the agent
    /// starts working and the session counts one more task assigned. An
    /// unknown session is refused with `SessionNotFound`.
    pub fn next_task_for(&mut self, session_id: SessionId, agent_id: AgentId) -> (r: Result<Option<TaskId>, SwarmError>)
        requires
            old(self).wf(),
        ensures
            final(self).wf(),
            final(self).sessions().len() == old(self).sessions().len(),
            r is Err == !has_session(old(self).sessions(), session_id),
            r is Err ==> r == Err::<Option<TaskId>, SwarmError>(SwarmError::SessionNotFound),
            forall|i: int| 0 <= i < old(self).sessions().len() && #[trigger] old(self).sessions()[i].id == session_id ==> {
                let s0 = old(self).sessions()[i];
                let s1 = final(self).sessions()[i];
                &&& s0.status != SessionStatus::Active ==> r == Ok::<Option<TaskId>, SwarmError>(None)
                &&& !has_agent(old(self).agents(), agent_id) ==> r == Ok::<Option<TaskId>, SwarmError>(None)
                &&& forall|a: int, j: int| 0 <= a < old(self).agents().len() && old(self).agents()[a].id == agent_id
                    && old(self).agents()[a].session_id == session_id
                    && old(self).agents()[a].status == AgentStatus::Idle && s0.status == SessionStatus::Active
                    && #[trigger] crate::task_queue::eligible(s0.tasks.slots(), j, old(self).agents()[a].role)
                    ==> (r is Ok && r->Ok_0 is Some)
                &&& r == Ok::<Option<TaskId>, SwarmError>(None) ==> s1.tasks.slots() == s0.tasks.slots()
                    && s1.metrics == s0.metrics && final(self).agents() == old(self).agents()
                &&& forall|t: TaskId| r == Ok::<Option<TaskId>, SwarmError>(Some(t)) ==> exists|a: int, j: int|
                    0 <= a < old(self).agents().len() && old(self).agents()[a].id == agent_id
                    && old(self).agents()[a].session_id == session_id
                    && old(self).agents()[a].status == AgentStatus::Idle
                    && #[trigger] crate::task_queue::best_for(s0.tasks.slots(), j, old(self).agents()[a].role)
                    && s0.tasks.slots()[j].id == t
                    && s1.tasks.slots()[j].status == TaskStatus::Assigned
                    && s1.tasks.slots()[j].assigned_to == Some(agent_id)
                    && s1.metrics.tasks_assigned == bump(s0.metrics.tasks_assigned)
            },
    {
        let i = match self.find(session_id) {
            Some(i) => i,
            None => {
                return Err(SwarmError::SessionNotFound);
            },
        };
        proof {
            assert forall|x: int| 0 <= x < self.sessions@.len() && #[trigger] self.sessions@[x].id == session_id implies x == i by {}
        }
        if self.sessions[i].status != SessionStatus::Active {
            return Ok(None);
        }
        let h = match self.agent_pool.get(agent_id) {
            Some(h) => h,
            None => {
                return Ok(None);
            },
        };
        proof {
            self.agent_pool.lemma_bounded();
            assert forall|a: int| 0 <= a < self.agents().len() && self.agents()[a].id == agent_id
                implies self.agents()[a] == h by {
                let k = choose|k: int| 0 <= k < self.agent_pool.view().len() && self.agent_pool.view()[k] == h;
                assert(k == a);
            }
        }
        if h.session_id != session_id || h.status != AgentStatus::Idle {
            return Ok(None);
        }
        let ghost ss0 = self.sessions@;
        let mut s = self.take(i);
        let picked = s.tasks.next_ready_for(h.role, agent_id);
        match picked {
            Some(_) => {
                s.metrics.tasks_assigned = bump_count(s.metrics.tasks_assigned);
                let _ = self.agent_pool.apply_event(agent_id, AgentEvent::TaskReceived);
            },
            None => {},
        }
        self.restore(i, s, Ghost(ss0));
        Ok(picked)
    }

    /// Records that `agent_id` completed the task `task_id` of session
    /// `session_id`; see `TaskQueue::report_completion` for its effect on
    /// the graph and when it is refused. On success the agent is idle
    /// again and the session counts one more task completed; an `Active`
    /// session whose tasks are then all completed becomes `Completed`. An
    /// unknown session is refused with `SessionNotFound`.
    pub fn complete_task(&mut self, session_id: SessionId, task_id: TaskId, agent_id: AgentId) -> (r: Result<
        (),
        SwarmError,
    >)
        requires
            old(self).wf(),
        ensures
            final(self).wf(),
            final(self).sessions().len() == old(self).sessions().len(),
            !has_session(old(self).sessions(), session_id) ==> r == Err::<(), SwarmError>(SwarmError::SessionNotFound),
            forall|i: int| 0 <= i < old(self).sessions().len() && #[trigger] old(self).sessions()[i].id == session_id ==> {
                let s0 = old(self).sessions()[i];
                let s1 = final(self).sessions()[i];
                &&& r is Err ==> s1.tasks.slots() == s0.tasks.slots() && s1.metrics == s0.metrics
                &&& r is Ok ==> s1.metrics == (SessionMetrics {
                    tasks_completed: bump(s0.metrics.tasks_completed),
                    ..s0.metrics
                })
                &&& r is Err ==> s1.status == s0.status
                &&& r is Ok ==> s1.status == if s0.status == SessionStatus::Active && forall|j: int|
                    0 <= j < s1.tasks.slots().len() ==> #[trigger] s1.tasks.slots()[j].status == TaskStatus::Completed {
                    SessionStatus::Completed
                } else {
                    s0.status
                }
                &&& r is Ok ==> exists|j: int| 0 <= j < s0.tasks.slots().len() && s0.tasks.slots()[j].id == task_id
                    && s0.tasks.slots()[j].status == TaskStatus::Assigned
                    && s0.tasks.slots()[j].assigned_to == Some(agent_id)
                    && s1.tasks.slots()[j].status == TaskStatus::Completed
                &&& !has_id(s0.tasks.slots(), task_id) ==> r == Err::<(), SwarmError>(SwarmError::TaskNotFound)
                &&& forall|j: int| 0 <= j < s0.tasks.slots().len() && #[trigger] s0.tasks.slots()[j].id == task_id ==> {
                    &&& (r is Ok) == (s0.tasks.slots()[j].status == TaskStatus::Assigned
                        && s0.tasks.slots()[j].assigned_to == Some(agent_id))
                    &&& r is Err ==> r == Err::<(), SwarmError>(SwarmError::TaskNotAssigned)
                    &&& r is Ok ==> {
                        let mid = s0.tasks.slots().update(j, TaskSlot {
                            status: TaskStatus::Completed,
                            assigned_to: None,
                            ..s0.tasks.slots()[j]
                        });
                        &&& s1.tasks.slots().len() == mid.len()
                        &&& forall|x: int| 0 <= x < mid.len() ==>
                            #[trigger] s1.tasks.slots()[x] == after_completion(mid, s0.tasks.deps(), x)
                    }
                }
            },
    {
        let i = match self.find(session_id) {
            Some(i) => i,
            None => {
                return Err(SwarmError::SessionNotFound);
            },
        };
        proof {
            assert forall|x: int| 0 <= x < self.sessions@.len() && #[trigger] self.sessions@[x].id == session_id implies x == i by {}
        }
        let ghost ss0 = self.sessions@;
        let mut s = self.take(i);
        let ghost q0 = s.tasks.slots();
        let r = s.tasks.report_completion(task_id, agent_id);
        if r.is_ok() {
            s.metrics.tasks_completed = bump_count(s.metrics.tasks_completed);
            if s.status == SessionStatus::Active && s.tasks.all_completed() {
                s.status = SessionStatus::Completed;
            }
            let _ = self.agent_pool.apply_event(agent_id, AgentEvent::TaskFinished);
            proof {
                let j = choose|j: int| 0 <= j < q0.len() && q0[j].id == task_id;
                assert(s.tasks.slots()[j] == crate::task_queue::after_completion(
                    q0.update(j, crate::task_queue::TaskSlot { status: TaskStatus::Completed, assigned_to: None, ..q0[j] }),
                    ss0[i as int].tasks.deps(),
                    j,
                ));
            }
        }
        self.restore(i, s, Ghost(ss0));
        r
    }

    /// Records that `agent_id` failed the task `task_id` of session
    /// `session_id`; see `TaskQueue::report_failure` for the retry and the
    /// cascade to dependent tasks. On success the agent is idle again. An
    /// unknown session is refused with `SessionNotFound`.
    pub fn fail_task(&mut self, session_id: SessionId, task_id: TaskId, agent_id: AgentId, retryable: bool) -> (r:
        Result<(), SwarmError>)
        requires
            old(self).wf(),
        ensures
            final(self).wf(),
            final(self).sessions().len() == old(self).sessions().len(),
            !has_session(old(self).sessions(), session_id) ==> r == Err::<(), SwarmError>(SwarmError::SessionNotFound),
            forall|i: int| 0 <= i < old(self).sessions().len() && #[trigger] old(self).sessions()[i].id == session_id ==> {
                let s0 = old(self).sessions()[i];
                let s1 = final(self).sessions()[i];
                &&& r is Err ==> s1.tasks.slots() == s0.tasks.slots() && s1.metrics == s0.metrics
                &&& r is Ok ==> exists|j: int| 0 <= j < s0.tasks.slots().len() && s0.tasks.slots()[j].id == task_id
                    && s0.tasks.slots()[j].status == TaskStatus::Assigned
                    && s0.tasks.slots()[j].assigned_to == Some(agent_id)
                    && (s1.tasks.slots()[j].status == TaskStatus::Failed || s1.tasks.slots()[j].status == TaskStatus::Ready)
                    && s1.metrics == (SessionMetrics {
                        tasks_failed: if s1.tasks.slots()[j].status == TaskStatus::Failed {
                            bump(s0.metrics.tasks_failed)
                        } else {
                            s0.metrics.tasks_failed
                        },
                        ..s0.metrics
                    })
                &&& !has_id(s0.tasks.slots(), task_id) ==> r == Err::<(), SwarmError>(SwarmError::TaskNotFound)
                &&& forall|j: int| 0 <= j < s0.tasks.slots().len() && #[trigger] s0.tasks.slots()[j].id == task_id ==> {
                    let o = s0.tasks.slots()[j];
                    &&& (r is Ok) == (o.status == TaskStatus::Assigned && o.assigned_to == Some(agent_id))
                    &&& r is Err ==> r == Err::<(), SwarmError>(SwarmError::TaskNotAssigned)
                    &&& (r is Ok && retryable && o.retries < s0.tasks.budget()) ==> s1.tasks.slots()
                        == s0.tasks.slots().update(j, TaskSlot {
                            status: TaskStatus::Ready,
                            assigned_to: None,
                            retries: (o.retries + 1) as u32,
                            ..o
                        })
                    &&& (r is Ok && !(retryable && o.retries < s0.tasks.budget())) ==> {
                        let mid = s0.tasks.slots().update(j, TaskSlot { status: TaskStatus::Failed, assigned_to: None, ..o });
                        &&& s1.tasks.slots().len() == mid.len()
                        &&& forall|x: int| 0 <= x < mid.len() ==>
                            #[trigger] s1.tasks.slots()[x] == after_failure(mid[x], s1.tasks.slots(), s0.tasks.deps(), x)
                    }
                }
            },
    {
        let i = match self.find(session_id) {
            Some(i) => i,
            None => {
                return Err(SwarmError::SessionNotFound);
            },
        };
        proof {
            assert forall|x: int| 0 <= x < self.sessions@.len() && #[trigger] self.sessions@[x].id == session_id implies x == i by {}
        }
        let ghost ss0 = self.sessions@;
        let mut s = self.take(i);
        let ghost q0 = s.tasks.slots();
        let r = s.tasks.report_failure(task_id, agent_id, retryable);
        if r.is_ok() {
            let ghost j = choose|j: int| 0 <= j < q0.len() && q0[j].id == task_id;
            let st = s.tasks.status_of(task_id);
            proof {
                assert forall|x: int| 0 <= x < s.tasks.slots().len() && s.tasks.slots()[x].id == task_id implies x == j by {
                    assert(s.tasks.slots()[x].id == q0[x].id);
                    assert(s.tasks.slots()[j].id == q0[j].id);
                }
            }
            if st == Some(TaskStatus::Failed) {
                s.metrics.tasks_failed = bump_count(s.metrics.tasks_failed);
            }
            let _ = self.agent_pool.apply_event(agent_id, AgentEvent::TaskFinished);
        }
        self.restore(i, s, Ghost(ss0));
        r
    }

    /// Returns every task in flight with `agent_id`, in every session, to
    /// `Ready`.
    fn release_everywhere(&mut self, agent_id: AgentId)
        requires
            old(self).wf(),
        ensures
            final(self).wf(),
            final(self).agent_pool == old(self).agent_pool,
            final(self).sessions().len() == old(self).sessions().len(),
            forall|i: int| 0 <= i < old(self).sessions().len() ==> (#[trigger] final(self).sessions()[i]).id == old(
                self,
            ).sessions()[i].id && final(self).sessions()[i].metrics == old(self).sessions()[i].metrics,
            forall|i: int, j: int| 0 <= i < old(self).sessions().len() && 0 <= j < old(self).sessions()[i].tasks.slots().len()
                ==> final(self).sessions()[i].tasks.slots().len() == old(self).sessions()[i].tasks.slots().len()
                && #[trigger] final(self).sessions()[i].tasks.slots()[j] == crate::task_queue::after_release(
                old(self).sessions()[i].tasks.slots()[j],
                agent_id,
            ),
    {
        let ghost ss0 = self.sessions@;
        let n = self.sessions.len();
        let mut i: usize = 0;
        while i < n
            invariant
                self.wf(),
                n == self.sessions@.len(),
                n == ss0.len(),
                i <= n,
                self.agent_pool == old(self).agent_pool,
                ss0 == old(self).sessions@,
                forall|x: int| 0 <= x < n ==> (#[trigger] self.sessions@[x]).id == ss0[x].id
                    && self.sessions@[x].metrics == ss0[x].metrics,
                forall|x: int, j: int| 0 <= x < i && 0 <= j < ss0[x].tasks.slots().len()
                    ==> self.sessions@[x].tasks.slots().len() == ss0[x].tasks.slots().len()
                    && #[trigger] self.sessions@[x].tasks.slots()[j] == crate::task_queue::after_release(ss0[x].tasks.slots()[j], agent_id),
                forall|x: int| i <= x < n ==> #[trigger] self.sessions@[x] == ss0[x],
            decreases n - i,
        {
            let ghost cur = self.sessions@;
            let mut s = self.take(i);
            s.tasks.release_agent(agent_id);
            self.restore(i, s, Ghost(cur));
            i = i + 1;
        }
    }

    /// Terminates the agent `agent_id`: any task it holds in its session
    /// returns to `Ready` first, then it leaves the pool. Terminating an
    /// agent that is not there succeeds and changes nothing.
    pub fn terminate_agent(&mut self, agent_id: AgentId) -> (r: Result<(), SwarmError>)
        requires
            old(self).wf(),
        ensures
            final(self).wf(),
            r is Ok,
            !has_agent(final(self).agents(), agent_id),
            final(self).sessions().len() == old(self).sessions().len(),
            forall|i: int| 0 <= i < old(self).sessions().len() ==> (#[trigger] final(self).sessions()[i]).id == old(
                self,
            ).sessions()[i].id && final(self).sessions()[i].metrics == old(self).sessions()[i].metrics,
            forall|i: int, j: int| 0 <= i < old(self).sessions().len() && 0 <= j < old(self).sessions()[i].tasks.slots().len()
                ==> final(self).sessions()[i].tasks.slots().len() == old(self).sessions()[i].tasks.slots().len()
                && #[trigger] final(self).sessions()[i].tasks.slots()[j] == crate::task_queue::after_release(
                old(self).sessions()[i].tasks.slots()[j],
                agent_id,
            ),
    {
        self.release_everywhere(agent_id);
        self.agent_pool.terminate_agent(agent_id)
    }

    /// Applies the event `e` to the agent `agent_id`; see
    /// `agent_next` for the state machine. When the agent fails, every task
    /// it held returns to `Ready`. An unknown agent, or an event its status
    /// does not accept, is refused with `TaskExecutionFailed` and changes
    /// nothing.
    pub fn agent_event(&mut self, agent_id: AgentId, e: AgentEvent) -> (r: Result<AgentStatus, SwarmError>)
        requires
            old(self).wf(),
        ensures
            final(self).wf(),
            final(self).agents().len() == old(self).agents().len(),
            !has_agent(old(self).agents(), agent_id) ==> r is Err,
            r is Err ==> r == Err::<AgentStatus, SwarmError>(SwarmError::TaskExecutionFailed)
                && final(self).agents() == old(self).agents() && final(self).sessions() == old(self).sessions(),
            forall|a: int| 0 <= a < old(self).agents().len() && #[trigger] old(self).agents()[a].id == agent_id ==> {
                &&& r is Ok == (crate::agent_pool::agent_next(old(self).agents()[a].status, e) is Some)
                &&& r is Ok ==> r->Ok_0 == crate::agent_pool::agent_next(old(self).agents()[a].status, e)->0
                    && final(self).agents() == old(self).agents().update(a, crate::agent_pool::AgentHandle {
                        status: r->Ok_0,
                        ..old(self).agents()[a]
                    })
            },
            r is Ok && r->Ok_0 != AgentStatus::Failed ==> final(self).sessions() == old(self).sessions(),
            r == Ok::<AgentStatus, SwarmError>(AgentStatus::Failed) ==> {
                &&& final(self).sessions().len() == old(self).sessions().len()
                &&& forall|i: int, j: int| 0 <= i < old(self).sessions().len() && 0 <= j < old(self).sessions()[i].tasks.slots().len()
                    ==> final(self).sessions()[i].tasks.slots().len() == old(self).sessions()[i].tasks.slots().len()
                    && #[trigger] final(self).sessions()[i].tasks.slots()[j] == crate::task_queue::after_release(
                    old(self).sessions()[i].tasks.slots()[j],
                    agent_id,
                )
            },
    {
        let r = self.agent_pool.apply_event(agent_id, e);
        match r {
            Ok(AgentStatus::Failed) => {
                self.release_everywhere(agent_id);
            },
            _ => {},
        }
        r
    }

    /// Identities of the agents of session `session_id`, in spawn order.
    pub fn agents_of(&self, session_id: SessionId) -> (r: Vec<AgentId>)
        ensures
            r@ == crate::agent_pool::session_agent_ids(self.agents(), session_id),
    {
        self.agent_pool.agents_of(session_id)
    }

    /// The handle of the agent `agent_id`.
    pub fn agent(&self, agent_id: AgentId) -> (r: Option<crate::agent_pool::AgentHandle>)
        ensures
            r is None == !has_agent(self.agents(), agent_id),
            r is Some ==> self.agents().contains(r->0) && r->0.id == agent_id,
    {
        let r = self.agent_pool.get(agent_id);
        proof {
            if r is Some {
                let i = choose|i: int| 0 <= i < self.agents().len() && self.agents()[i] == r->0;
                assert(self.agents()[i] == r->0);
            }
        }
        r
    }

    /// The status of task `task_id` in session `session_id`.
    pub fn task_status(&self, session_id: SessionId, task_id: TaskId) -> (r: Option<TaskStatus>)
        requires
            self.wf(),
        ensures
            r is Some ==> exists|i: int, j: int| 0 <= i < self.sessions().len() && self.sessions()[i].id == session_id
                && 0 <= j < self.sessions()[i].tasks.slots().len()
                && #[trigger] self.sessions()[i].tasks.slots()[j].id == task_id
                && self.sessions()[i].tasks.slots()[j].status == r->0,
            !has_session(self.sessions(), session_id) ==> r is None,
            forall|i: int, j: int| 0 <= i < self.sessions().len() && self.sessions()[i].id == session_id
                && 0 <= j < self.sessions()[i].tasks.slots().len()
                && #[trigger] self.sessions()[i].tasks.slots()[j].id == task_id ==> r is Some,
    {
        match self.find(session_id) {
            Some(i) => {
                proof {
                    assert(self.sessions@[i as int].tasks.wf());
                }
                let r = self.sessions[i].tasks.status_of(task_id);
                proof {
                    assert forall|x: int, j: int| 0 <= x < self.sessions().len() && self.sessions()[x].id == session_id
                        && 0 <= j < self.sessions()[x].tasks.slots().len()
                        && #[trigger] self.sessions()[x].tasks.slots()[j].id == task_id implies r is Some by {
                        assert(x == i);
                    }
                    if r is Some {
                        let q = self.sessions@[i as int].tasks.slots();
                        let j = choose|j: int| 0 <= j < q.len() && q[j].id == task_id && q[j].status == r->0;
                        assert(self.sessions()[i as int].tasks.slots()[j].id == task_id);
                    }
                }
                r
            },
            None => None,
        }
    }
}

} // verus!
