use vstd::prelude::*;

use crate::outside::fresh_id;
use crate::types::{AgentId, AgentRole, AgentStatus, ModelPreference, SessionId, SwarmError};

verus! {

/// No pool ever holds more agents than this.
pub const SYSTEM_AGENT_CEILING: usize = 10000;

/// A worker of the pool.
#[derive(Clone, Copy, PartialEq, Eq, Structural, Debug)]
pub struct AgentHandle {
    pub id: AgentId,
    pub session_id: SessionId,
    pub role: AgentRole,
    pub model: ModelPreference,
    pub status: AgentStatus,
    pub tasks_completed: usize,
    pub cost_incurred: u64,
}

/// What happens to an agent in its execution loop.
#[derive(Clone, Copy, PartialEq, Eq, Structural, Debug)]
pub enum AgentEvent {
    /// A task was handed to the agent.
    TaskReceived,
    /// The agent finished its task, successfully or not.
    TaskFinished,
    /// The agent waits for a resource or dependency.
    ResourceWait,
    /// What the agent waited for is available.
    Unblocked,
    /// The agent hit an unrecoverable error.
    Fatal,
}

/// The agent state machine: `Idle -> Working -> Idle`, `Idle/Working ->
/// Blocked -> Idle`, any live state `-> Failed`; `Failed` is terminal.
/// `None` marks an event that the state does not accept.
pub open spec fn agent_next(s: AgentStatus, e: AgentEvent) -> Option<AgentStatus> {
    match (s, e) {
        (AgentStatus::Idle, AgentEvent::TaskReceived) => Some(AgentStatus::Working),
        (AgentStatus::Working, AgentEvent::TaskFinished) => Some(AgentStatus::Idle),
        (AgentStatus::Idle, AgentEvent::ResourceWait) => Some(AgentStatus::Blocked),
        (AgentStatus::Working, AgentEvent::ResourceWait) => Some(AgentStatus::Blocked),
        (AgentStatus::Blocked, AgentEvent::Unblocked) => Some(AgentStatus::Idle),
        (AgentStatus::Failed, _) => None,
        (_, AgentEvent::Fatal) => Some(AgentStatus::Failed),
        _ => None,
    }
}

/// The next status of an agent in status `s` on event `e`.
pub fn next_status(s: AgentStatus, e: AgentEvent) -> (r: Option<AgentStatus>)
    ensures
        r == agent_next(s, e),
{
    match (s, e) {
        (AgentStatus::Idle, AgentEvent::TaskReceived) => Some(AgentStatus::Working),
        (AgentStatus::Working, AgentEvent::TaskFinished) => Some(AgentStatus::Idle),
        (AgentStatus::Idle, AgentEvent::ResourceWait) => Some(AgentStatus::Blocked),
        (AgentStatus::Working, AgentEvent::ResourceWait) => Some(AgentStatus::Blocked),
        (AgentStatus::Blocked, AgentEvent::Unblocked) => Some(AgentStatus::Idle),
        (AgentStatus::Failed, _) => None,
        (_, AgentEvent::Fatal) => Some(AgentStatus::Failed),
        _ => None,
    }
}

/// A failed agent never leaves `Failed`, so it takes no further task.
pub proof fn lemma_failed_is_terminal(e: AgentEvent)
    ensures
        agent_next(AgentStatus::Failed, e) is None,
{
}

/// Only an idle agent can start working on a task.
pub proof fn lemma_work_starts_from_idle(s: AgentStatus, e: AgentEvent)
    requires
        agent_next(s, e) == Some(AgentStatus::Working),
    ensures
        s == AgentStatus::Idle,
        e == AgentEvent::TaskReceived,
{
}

/// Some agent of `s` has identity `id`.
pub open spec fn has_agent(s: Seq<AgentHandle>, id: AgentId) -> bool {
    exists|i: int| 0 <= i < s.len() && s[i].id == id
}

/// Number of agents of `s` in session `session` with status `st`.
pub open spec fn count_agents(s: Seq<AgentHandle>, session: SessionId, st: AgentStatus) -> nat
    decreases s.len(),
{
    if s.len() == 0 {
        0
    } else {
        count_agents(s.drop_last(), session, st) + if s.last().session_id == session && s.last().status == st {
            1nat
        } else {
            0nat
        }
    }
}

/// The agents of a session, counted by status, number no more than the pool.
pub proof fn lemma_count_total(s: Seq<AgentHandle>, session: SessionId)
    ensures
        count_agents(s, session, AgentStatus::Idle) + count_agents(s, session, AgentStatus::Working) + count_agents(
            s,
            session,
            AgentStatus::Blocked,
        ) + count_agents(s, session, AgentStatus::Failed) <= s.len(),
    decreases s.len(),
{
    if s.len() > 0 {
        lemma_count_total(s.drop_last(), session);
    }
}

/// The registry of live agents, in spawn order.
pub struct AgentPool {
    agents: Vec<AgentHandle>,
    capacity: usize,
}

impl AgentPool {
    /// The live agents, in spawn order.
    pub closed spec fn view(&self) -> Seq<AgentHandle> {
        self.agents@
    }

    /// How many agents the pool may hold.
    pub closed spec fn cap(&self) -> usize {
        self.capacity
    }

    pub closed spec fn wf(&self) -> bool {
        &&& self.agents@.len() <= self.capacity
        &&& self.capacity <= SYSTEM_AGENT_CEILING
        &&& forall|i: int, j: int| 0 <= i < self.agents@.len() && 0 <= j < self.agents@.len() && i != j
            ==> self.agents@[i].id != self.agents@[j].id
    }

    /// A well-formed pool holds at most the system ceiling of agents.
    pub proof fn lemma_bounded(&self)
        requires
            self.wf(),
        ensures
            self.view().len() <= self.cap(),
            self.cap() <= SYSTEM_AGENT_CEILING,
            forall|i: int, j: int| 0 <= i < self.view().len() && 0 <= j < self.view().len() && i != j
                ==> self.view()[i].id != self.view()[j].id,
    {
    }

    /// An empty pool that may grow to the system ceiling.
    pub fn new() -> (r: AgentPool)
        ensures
            r.wf(),
            r.view().len() == 0,
            r.cap() == SYSTEM_AGENT_CEILING,
    {
        AgentPool { agents: Vec::new(), capacity: SYSTEM_AGENT_CEILING }
    }

    /// An empty pool of at most `capacity` agents, and never more than the
    /// system ceiling.
    pub fn with_capacity(capacity: usize) -> (r: AgentPool)
        ensures
            r.wf(),
            r.view().len() == 0,
            r.cap() == if capacity < SYSTEM_AGENT_CEILING { capacity } else { SYSTEM_AGENT_CEILING },
    {
        let c = if capacity < SYSTEM_AGENT_CEILING { capacity } else { SYSTEM_AGENT_CEILING };
        AgentPool { agents: Vec::new(), capacity: c }
    }

    /// Number of live agents.
    pub fn len(&self) -> (r: usize)
        ensures
            r == self.view().len(),
    {
        self.agents.len()
    }

    /// How many agents the pool may hold.
    pub fn capacity(&self) -> (r: usize)
        ensures
            r == self.cap(),
    {
        self.capacity
    }

    /// Position of the agent `id`.
    fn find(&self, id: AgentId) -> (r: Option<usize>)
        ensures
            match r {
                Some(i) => i < self.view().len() && self.view()[i as int].id == id,
                None => !has_agent(self.view(), id),
            },
    {
        let mut i: usize = 0;
        while i < self.agents.len()
            invariant
                i <= self.agents@.len(),
                forall|j: int| 0 <= j < i ==> self.agents@[j].id != id,
            decreases self.agents@.len() - i,
        {
            if self.agents[i].id == id {
                return Some(i);
            }
            i = i + 1;
        }
        None
    }

    /// The handle of the agent `id`.
    pub fn get(&self, id: AgentId) -> (r: Option<AgentHandle>)
        ensures
            r is None == !has_agent(self.view(), id),
            r is Some ==> exists|i: int| 0 <= i < self.view().len() && self.view()[i] == r->0,
            r is Some ==> r->0.id == id,
    {
        match self.find(id) {
            Some(i) => Some(self.agents[i]),
            None => None,
        }
    }

    /// Registers an idle agent with identity `id` for `session_id`.
    ///
    /// Refused with `AgentSpawnFailed` when the pool is full or the
    /// identity is taken; a refusal leaves the pool unchanged.
    pub fn spawn_with_id(
        &mut self,
        id: AgentId,
        session_id: SessionId,
        role: AgentRole,
        model: ModelPreference,
    ) -> (r: Result<AgentHandle, SwarmError>)
        requires
            old(self).wf(),
        ensures
            final(self).wf(),
            final(self).cap() == old(self).cap(),
            r is Err == (old(self).view().len() >= old(self).cap() || has_agent(old(self).view(), id)),
            r is Err ==> r == Err::<AgentHandle, SwarmError>(SwarmError::AgentSpawnFailed) && final(self).view()
                == old(self).view(),
            r is Ok ==> r->Ok_0 == (AgentHandle {
                id,
                session_id,
                role,
                model,
                status: AgentStatus::Idle,
                tasks_completed: 0,
                cost_incurred: 0,
            }) && final(self).view() == old(self).view().push(r->Ok_0),
    {
        if self.agents.len() >= self.capacity {
            return Err(SwarmError::AgentSpawnFailed);
        }
        if self.find(id).is_some() {
            return Err(SwarmError::AgentSpawnFailed);
        }
        let h = AgentHandle {
            id,
            session_id,
            role,
            model,
            status: AgentStatus::Idle,
            tasks_completed: 0,
            cost_incurred: 0,
        };
        self.agents.push(h);
        Ok(h)
    }

    /// Spawns an idle agent for `session_id` under a fresh random identity.
    ///
    /// A full pool refuses with `AgentSpawnFailed`, as does the unlikely
    /// draw of an identity already in use; a refusal leaves the pool
    /// unchanged.
    pub fn spawn_agent(&mut self, session_id: SessionId, role: AgentRole, model: ModelPreference) -> (r: Result<
        AgentHandle,
        SwarmError,
    >)
        requires
            old(self).wf(),
        ensures
            final(self).wf(),
            final(self).cap() == old(self).cap(),
            old(self).view().len() >= old(self).cap() ==> r is Err,
            r is Err ==> r == Err::<AgentHandle, SwarmError>(SwarmError::AgentSpawnFailed) && final(self).view()
                == old(self).view(),
            r is Ok ==> {
                let h = r->Ok_0;
                &&& !has_agent(old(self).view(), h.id)
                &&& h.session_id == session_id && h.role == role && h.model == model
                &&& h.status == AgentStatus::Idle && h.tasks_completed == 0 && h.cost_incurred == 0
                &&& final(self).view() == old(self).view().push(h)
            },
    {
        let id = fresh_id();
        self.spawn_with_id(id, session_id, role, model)
    }

    /// Removes the agent `id`; an agent that is not there is no error.
    pub fn terminate_agent(&mut self, id: AgentId) -> (r: Result<(), SwarmError>)
        requires
            old(self).wf(),
        ensures
            final(self).wf(),
            final(self).cap() == old(self).cap(),
            r is Ok,
            !has_agent(final(self).view(), id),
            !has_agent(old(self).view(), id) ==> final(self).view() == old(self).view(),
            has_agent(old(self).view(), id) ==> exists|i: int| 0 <= i < old(self).view().len()
                && old(self).view()[i].id == id && final(self).view() == old(self).view().remove(i),
    {
        match self.find(id) {
            Some(i) => {
                let ghost s0 = self.agents@;
                self.agents.remove(i);
                proof {
                    let s1 = self.agents@;
                    assert forall|j: int| 0 <= j < s1.len() implies s1[j].id != id by {
                        if j < i {
                            assert(s1[j] == s0[j]);
                        } else {
                            assert(s1[j] == s0[j + 1]);
                        }
                    }
                    assert forall|a: int, b: int| 0 <= a < s1.len() && 0 <= b < s1.len() && a != b
                        implies s1[a].id != s1[b].id by {
                        let a0 = if a < i { a } else { a + 1 };
                        let b0 = if b < i { b } else { b + 1 };
                        assert(s1[a] == s0[a0]);
                        assert(s1[b] == s0[b0]);
                    }
                }
                Ok(())
            },
            None => Ok(()),
        }
    }

    /// Applies the event `e` to the agent `id` and returns its new status.
    ///
    /// An unknown agent is refused with `TaskExecutionFailed`, as is an
    /// event that its status does not accept; either leaves it unchanged.
    pub fn apply_event(&mut self, id: AgentId, e: AgentEvent) -> (r: Result<AgentStatus, SwarmError>)
        requires
            old(self).wf(),
        ensures
            final(self).wf(),
            final(self).cap() == old(self).cap(),
            final(self).view().len() == old(self).view().len(),
            !has_agent(old(self).view(), id) ==> r is Err,
            r is Err ==> r == Err::<AgentStatus, SwarmError>(SwarmError::TaskExecutionFailed),
            r is Err ==> final(self).view() == old(self).view(),
            forall|i: int| 0 <= i < old(self).view().len() && #[trigger] old(self).view()[i].id == id ==> {
                &&& r is Ok == (agent_next(old(self).view()[i].status, e) is Some)
                &&& r is Ok ==> r->Ok_0 == agent_next(old(self).view()[i].status, e)->0
                    && final(self).view() == old(self).view().update(i, AgentHandle {
                        status: r->Ok_0,
                        ..old(self).view()[i]
                    })
            },
    {
        match self.find(id) {
            None => Err(SwarmError::TaskExecutionFailed),
            Some(i) => {
                let h = self.agents[i];
                proof {
                    assert forall|x: int| 0 <= x < self.agents@.len() && #[trigger] self.agents@[x].id == id implies x == i by {}
                }
                match next_status(h.status, e) {
                    None => Err(SwarmError::TaskExecutionFailed),
                    Some(st) => {
                        let ghost s0 = self.agents@;
                        self.agents.set(i, AgentHandle { status: st, ..h });
                        proof {
                            assert forall|a: int| 0 <= a < self.agents@.len() implies (#[trigger] self.agents@[a]).id == s0[a].id by {}
                        }
                        Ok(st)
                    },
                }
            },
        }
    }

    /// Identities of the agents of `session_id`, in spawn order.
    pub fn agents_of(&self, session_id: SessionId) -> (r: Vec<AgentId>)
        ensures
            r@ == session_agent_ids(self.view(), session_id),
    {
        let mut out: Vec<AgentId> = Vec::new();
        let mut i: usize = 0;
        while i < self.agents.len()
            invariant
                i <= self.agents@.len(),
                out@ == session_agent_ids(self.agents@.take(i as int), session_id),
            decreases self.agents@.len() - i,
        {
            proof {
                assert(self.agents@.take(i + 1).drop_last() =~= self.agents@.take(i as int));
            }
            if self.agents[i].session_id == session_id {
                out.push(self.agents[i].id);
            }
            i = i + 1;
        }
        proof {
            assert(self.agents@.take(i as int) =~= self.agents@);
        }
        out
    }

    /// Number of agents of `session_id` with status `st`.
    pub fn count_with_status(&self, session_id: SessionId, st: AgentStatus) -> (r: usize)
        ensures
            r == count_agents(self.view(), session_id, st),
    {
        let mut c: usize = 0;
        let mut i: usize = 0;
        while i < self.agents.len()
            invariant
                i <= self.agents@.len(),
                c == count_agents(self.agents@.take(i as int), session_id, st),
                c <= i,
            decreases self.agents@.len() - i,
        {
            proof {
                assert(self.agents@.take(i + 1).drop_last() =~= self.agents@.take(i as int));
            }
            if self.agents[i].session_id == session_id && self.agents[i].status == st {
                c = c + 1;
            }
            i = i + 1;
        }
        proof {
            assert(self.agents@.take(i as int) =~= self.agents@);
        }
        c
    }

    /// Spawns `count` idle agents of one role for `session_id`.
    ///
    /// On success the new agents follow the old ones in the pool; on a
    /// refusal the agents that came before stay as they were and any new
    /// ones follow them.
    pub fn spawn_many(
        &mut self,
        session_id: SessionId,
        role: AgentRole,
        model: ModelPreference,
        count: usize,
    ) -> (r: Result<(), SwarmError>)
        requires
            old(self).wf(),
        ensures
            final(self).wf(),
            final(self).cap() == old(self).cap(),
            final(self).view().len() >= old(self).view().len(),
            final(self).view().take(old(self).view().len() as int) == old(self).view(),
            old(self).view().len() + count > old(self).cap() ==> r is Err,
            r is Err ==> r == Err::<(), SwarmError>(SwarmError::AgentSpawnFailed),
            count == 0 ==> r is Ok && final(self).view() == old(self).view(),
            r is Ok ==> final(self).view().len() == old(self).view().len() + count,
            r is Ok ==> forall|k: int| old(self).view().len() <= k < final(self).view().len() ==> {
                let h = #[trigger] final(self).view()[k];
                &&& h.session_id == session_id && h.role == role && h.model == model
                &&& h.status == AgentStatus::Idle && h.tasks_completed == 0 && h.cost_incurred == 0
            },
    {
        if self.agents.len() > self.capacity || count > self.capacity - self.agents.len() {
            return Err(SwarmError::AgentSpawnFailed);
        }
        let ghost s0 = self.agents@;
        let mut k: usize = 0;
        while k < count
            invariant
                self.wf(),
                self.capacity == old(self).capacity,
                s0 == old(self).agents@,
                s0.len() + count <= self.capacity,
                k <= count,
                self.agents@.len() == s0.len() + k,
                self.agents@.take(s0.len() as int) == s0,
                forall|x: int| s0.len() <= x < self.agents@.len() ==> {
                    let h = #[trigger] self.agents@[x];
                    &&& h.session_id == session_id && h.role == role && h.model == model
                    &&& h.status == AgentStatus::Idle && h.tasks_completed == 0 && h.cost_incurred == 0
                },
            decreases count - k,
        {
            let ghost before = self.agents@;
            match self.spawn_agent(session_id, role, model) {
                Ok(_) => {
                    proof {
                        assert(self.agents@.take(s0.len() as int) =~= before.take(s0.len() as int));
                        assert forall|x: int| s0.len() <= x < self.agents@.len() - 1 implies self.agents@[x] == before[x] by {}
                    }
                },
                Err(e) => {
                    return Err(e);
                },
            }
            k = k + 1;
        }
        Ok(())
    }

    /// Drops every agent after the first `n`.
    pub fn truncate(&mut self, n: usize)
        requires
            old(self).wf(),
        ensures
            final(self).wf(),
            final(self).cap() == old(self).cap(),
            n <= old(self).view().len() ==> final(self).view() == old(self).view().take(n as int),
            n > old(self).view().len() ==> final(self).view() == old(self).view(),
    {
        self.agents.truncate(n);
    }

    /// Removes every agent of `session_id`, keeping the others in order.
    pub fn remove_session(&mut self, session_id: SessionId)
        requires
            old(self).wf(),
        ensures
            final(self).wf(),
            final(self).cap() == old(self).cap(),
            forall|i: int| 0 <= i < final(self).view().len() ==> (#[trigger] final(self).view()[i]).session_id != session_id,
            forall|i: int| 0 <= i < final(self).view().len() ==> old(self).view().contains(#[trigger] final(self).view()[i]),
            forall|i: int| 0 <= i < old(self).view().len() && (#[trigger] old(self).view()[i]).session_id != session_id
                ==> final(self).view().contains(old(self).view()[i]),
    {
        let ghost s0 = self.agents@;
        let mut kept: Vec<AgentHandle> = Vec::new();
        let mut i: usize = 0;
        while i < self.agents.len()
            invariant
                self.agents@ == s0,
                self.wf(),
                i <= s0.len(),
                kept@.len() <= i,
                forall|x: int| 0 <= x < kept@.len() ==> (#[trigger] kept@[x]).session_id != session_id,
                forall|x: int| 0 <= x < kept@.len() ==> exists|j: int| 0 <= j < i && s0[j] == #[trigger] kept@[x],
                forall|j: int| 0 <= j < i && (#[trigger] s0[j]).session_id != session_id ==> kept@.contains(s0[j]),
                forall|a: int, b: int| 0 <= a < kept@.len() && 0 <= b < kept@.len() && a != b
                    ==> kept@[a].id != kept@[b].id,
            decreases s0.len() - i,
        {
            let h = self.agents[i];
            if h.session_id != session_id {
                let ghost k0 = kept@;
                kept.push(h);
                proof {
                    assert forall|x: int| 0 <= x < k0.len() implies kept@[x].id != h.id by {
                        assert(kept@[x] == k0[x]);
                        let j = choose|j: int| 0 <= j < i && s0[j] == #[trigger] k0[x];
                        assert(s0[j].id != s0[i as int].id);
                    }
                    assert forall|x: int| 0 <= x < kept@.len() implies exists|j: int| 0 <= j < i + 1 && s0[j] == #[trigger] kept@[x] by {
                        if x < k0.len() {
                            assert(kept@[x] == k0[x]);
                            let j = choose|j: int| 0 <= j < i && s0[j] == #[trigger] k0[x];
                            assert(s0[j] == kept@[x]);
                        } else {
                            assert(s0[i as int] == kept@[x]);
                        }
                    }
                    assert forall|j: int| 0 <= j < i + 1 && (#[trigger] s0[j]).session_id != session_id implies kept@.contains(s0[j]) by {
                        if j < i {
                            assert(k0.contains(s0[j]));
                            let x = choose|x: int| 0 <= x < k0.len() && k0[x] == s0[j];
                            assert(kept@[x] == s0[j]);
                        } else {
                            assert(kept@[k0.len() as int] == s0[j]);
                        }
                    }
                }
            }
            i = i + 1;
        }
        self.agents = kept;
        proof {
            assert forall|x: int| 0 <= x < self.agents@.len() implies s0.contains(#[trigger] self.agents@[x]) by {
                let j = choose|j: int| 0 <= j < i && s0[j] == #[trigger] self.agents@[x];
            }
        }
    }
}

/// Identities of the agents of `s` that belong to `session`, in order.
pub open spec fn session_agent_ids(s: Seq<AgentHandle>, session: SessionId) -> Seq<AgentId>
    decreases s.len(),
{
    if s.len() == 0 {
        Seq::empty()
    } else {
        let pre = session_agent_ids(s.drop_last(), session);
        if s.last().session_id == session {
            pre.push(s.last().id)
        } else {
            pre
        }
    }
}

} // verus!
