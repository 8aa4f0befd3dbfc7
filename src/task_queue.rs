use vstd::prelude::*;

use crate::types::{AgentId, AgentRole, SwarmError, TaskId};

verus! {

/// Where a task stands in the schedule.
#[derive(Clone, Copy, PartialEq, Eq, Structural, Debug)]
pub enum TaskStatus {
    Pending,
    Ready,
    Assigned,
    Completed,
    Failed,
}

/// A unit of work as a caller submits it.
pub struct Task {
    pub id: TaskId,
    pub description: String,
    pub estimated_time_min: u64,
    pub dependencies: Vec<TaskId>,
    pub assigned_to: Option<AgentId>,
    /// Higher values are handed out earlier among tasks that are ready.
    pub priority: u64,
    /// The role a task is bound to; `None` lets any agent take it.
    pub role: Option<AgentRole>,
}

/// The scheduling record that the queue keeps of each task.
#[derive(Clone, Copy, PartialEq, Eq, Structural, Debug)]
pub struct TaskSlot {
    pub id: TaskId,
    pub priority: u64,
    pub role: Option<AgentRole>,
    pub status: TaskStatus,
    pub assigned_to: Option<AgentId>,
    pub retries: u32,
}

/// Default number of retryable failures a task may have before it fails.
pub const DEFAULT_RETRY_BUDGET: u32 = 3;

/// The dependency graph of a session's tasks, in enqueue order.
///
/// A task depends only on tasks enqueued before it, so the graph is acyclic
/// by construction; `deps[i]` holds the positions of task `i`'s dependencies.
pub struct TaskQueue {
    slots: Vec<TaskSlot>,
    deps: Vec<Vec<usize>>,
    tasks: Vec<Task>,
    retry_budget: u32,
}

/// Every dependency of task `i` is completed.
pub open spec fn deps_done(s: Seq<TaskSlot>, d: Seq<Seq<usize>>, i: int) -> bool {
    forall|k: int| 0 <= k < d[i].len() ==> #[trigger] s[d[i][k] as int].status == TaskStatus::Completed
}

/// Some dependency of task `i` has failed.
pub open spec fn dep_failed(s: Seq<TaskSlot>, d: Seq<Seq<usize>>, i: int) -> bool {
    exists|k: int| 0 <= k < d[i].len() && #[trigger] s[d[i][k] as int].status == TaskStatus::Failed
}

/// The status of task `i` agrees with its dependencies and its assignment.
pub open spec fn status_consistent(s: Seq<TaskSlot>, d: Seq<Seq<usize>>, i: int) -> bool {
    match s[i].status {
        TaskStatus::Pending => !deps_done(s, d, i) && !dep_failed(s, d, i) && s[i].assigned_to is None,
        TaskStatus::Ready => deps_done(s, d, i) && s[i].assigned_to is None,
        TaskStatus::Assigned => deps_done(s, d, i) && s[i].assigned_to is Some,
        TaskStatus::Completed => deps_done(s, d, i) && s[i].assigned_to is None,
        TaskStatus::Failed => s[i].assigned_to is None,
    }
}

/// Dependencies point to earlier tasks only.
pub open spec fn deps_earlier(d: Seq<Seq<usize>>) -> bool {
    forall|i: int, k: int| 0 <= i < d.len() && 0 <= k < d[i].len() ==> #[trigger] d[i][k] < i
}

/// No two tasks share an identity.
pub open spec fn ids_unique(s: Seq<TaskSlot>) -> bool {
    forall|i: int, j: int| 0 <= i < s.len() && 0 <= j < s.len() && i != j ==> s[i].id != s[j].id
}

/// Some task of the graph has identity `id`.
pub open spec fn has_id(s: Seq<TaskSlot>, id: TaskId) -> bool {
    exists|i: int| 0 <= i < s.len() && s[i].id == id
}

/// The well-formedness of a task graph.
pub open spec fn graph_wf(s: Seq<TaskSlot>, d: Seq<Seq<usize>>) -> bool {
    &&& s.len() == d.len()
    &&& deps_earlier(d)
    &&& ids_unique(s)
    &&& forall|i: int| 0 <= i < s.len() ==> #[trigger] status_consistent(s, d, i)
}

/// The status a task gets on entering the graph with dependencies `ds`.
pub open spec fn entry_status(s: Seq<TaskSlot>, ds: Seq<usize>) -> TaskStatus {
    if exists|k: int| 0 <= k < ds.len() && #[trigger] s[ds[k] as int].status == TaskStatus::Failed {
        TaskStatus::Failed
    } else if forall|k: int| 0 <= k < ds.len() ==> #[trigger] s[ds[k] as int].status == TaskStatus::Completed {
        TaskStatus::Ready
    } else {
        TaskStatus::Pending
    }
}

/// A status that no task has is counted zero times.
proof fn lemma_count_absent(s: Seq<TaskSlot>, st: TaskStatus)
    requires
        forall|x: int| 0 <= x < s.len() ==> (#[trigger] s[x]).status != st,
    ensures
        count_status(s, st) == 0,
    decreases s.len(),
{
    if s.len() > 0 {
        let pre = s.drop_last();
        assert forall|x: int| 0 <= x < pre.len() implies (#[trigger] pre[x]).status != st by {
            assert(pre[x] == s[x]);
        }
        lemma_count_absent(pre, st);
    }
}

/// Task `i` is ready and may go to an agent of role `role`.
pub open spec fn eligible(s: Seq<TaskSlot>, i: int, role: AgentRole) -> bool {
    &&& 0 <= i < s.len()
    &&& s[i].status == TaskStatus::Ready
    &&& (s[i].role is None || s[i].role == Some(role))
}

/// Task `i` is the one to hand to an agent of role `role`: eligible, of the
/// highest priority among the eligible, and the earliest enqueued among those.
pub open spec fn best_for(s: Seq<TaskSlot>, i: int, role: AgentRole) -> bool {
    &&& eligible(s, i, role)
    &&& forall|j: int| #[trigger] eligible(s, j, role) ==>
        s[j].priority < s[i].priority || (s[j].priority == s[i].priority && i <= j)
}

/// Task `i` is ready, whatever role it is bound to.
pub open spec fn ready_at(s: Seq<TaskSlot>, i: int) -> bool {
    0 <= i < s.len() && s[i].status == TaskStatus::Ready
}

/// Task `i` is the ready task of the highest priority, the earliest
/// enqueued among those of that priority.
pub open spec fn best_ready(s: Seq<TaskSlot>, i: int) -> bool {
    &&& ready_at(s, i)
    &&& forall|j: int| #[trigger] ready_at(s, j) ==>
        s[j].priority < s[i].priority || (s[j].priority == s[i].priority && i <= j)
}

/// Task `i` is ready and bound to a role that `role` admits; `None`
/// admits every role.
pub open spec fn admits(s: Seq<TaskSlot>, i: int, role: Option<AgentRole>) -> bool {
    match role {
        Some(r) => eligible(s, i, r),
        None => ready_at(s, i),
    }
}

/// Task `i` is the best among the tasks that `role` admits.
pub open spec fn best_admitted(s: Seq<TaskSlot>, i: int, role: Option<AgentRole>) -> bool {
    &&& admits(s, i, role)
    &&& forall|j: int| #[trigger] admits(s, j, role) ==>
        s[j].priority < s[i].priority || (s[j].priority == s[i].priority && i <= j)
}

proof fn lemma_admits_role(s: Seq<TaskSlot>, role: AgentRole)
    ensures
        forall|i: int| #[trigger] admits(s, i, Some(role)) == eligible(s, i, role),
        forall|i: int| #[trigger] best_admitted(s, i, Some(role)) == best_for(s, i, role),
{
    assert forall|i: int| #[trigger] best_admitted(s, i, Some(role)) == best_for(s, i, role) by {
        if best_admitted(s, i, Some(role)) {
            assert forall|j: int| #[trigger] eligible(s, j, role) implies s[j].priority < s[i].priority
                || (s[j].priority == s[i].priority && i <= j) by {
                assert(admits(s, j, Some(role)));
            }
        }
        if best_for(s, i, role) {
            assert forall|j: int| #[trigger] admits(s, j, Some(role)) implies s[j].priority < s[i].priority
                || (s[j].priority == s[i].priority && i <= j) by {
                assert(eligible(s, j, role));
            }
        }
    }
}

proof fn lemma_admits_any(s: Seq<TaskSlot>)
    ensures
        forall|i: int| #[trigger] admits(s, i, None) == ready_at(s, i),
        forall|i: int| #[trigger] best_admitted(s, i, None) == best_ready(s, i),
{
    assert forall|i: int| #[trigger] best_admitted(s, i, None) == best_ready(s, i) by {
        if best_admitted(s, i, None) {
            assert forall|j: int| #[trigger] ready_at(s, j) implies s[j].priority < s[i].priority
                || (s[j].priority == s[i].priority && i <= j) by {
                assert(admits(s, j, None));
            }
        }
        if best_ready(s, i) {
            assert forall|j: int| #[trigger] admits(s, j, None) implies s[j].priority < s[i].priority
                || (s[j].priority == s[i].priority && i <= j) by {
                assert(ready_at(s, j));
            }
        }
    }
}

/// Task `j` after the completion of another task: a pending task whose
/// dependencies are now all completed becomes ready.
pub open spec fn after_completion(s: Seq<TaskSlot>, d: Seq<Seq<usize>>, j: int) -> TaskSlot {
    if s[j].status == TaskStatus::Pending && deps_done(s, d, j) {
        TaskSlot { status: TaskStatus::Ready, ..s[j] }
    } else {
        s[j]
    }
}

/// Task `j` after the failure of another task, judged against the state
/// `n` after the failure: a pending task with a failed dependency fails too.
pub open spec fn after_failure(old_slot: TaskSlot, n: Seq<TaskSlot>, d: Seq<Seq<usize>>, j: int) -> TaskSlot {
    if old_slot.status == TaskStatus::Pending && dep_failed(n, d, j) {
        TaskSlot { status: TaskStatus::Failed, ..old_slot }
    } else {
        old_slot
    }
}

/// Task `j` after the agent `agent` stopped: its in-flight task is ready again.
pub open spec fn after_release(slot: TaskSlot, agent: AgentId) -> TaskSlot {
    if slot.status == TaskStatus::Assigned && slot.assigned_to == Some(agent) {
        TaskSlot { status: TaskStatus::Ready, assigned_to: None, ..slot }
    } else {
        slot
    }
}

/// Task `slot` after every agent stopped: a task in flight is ready again.
pub open spec fn released(slot: TaskSlot) -> TaskSlot {
    if slot.status == TaskStatus::Assigned {
        TaskSlot { status: TaskStatus::Ready, assigned_to: None, ..slot }
    } else {
        slot
    }
}

/// Number of tasks in `s` with status `st`.
pub open spec fn count_status(s: Seq<TaskSlot>, st: TaskStatus) -> nat
    decreases s.len(),
{
    if s.len() == 0 {
        0
    } else {
        count_status(s.drop_last(), st) + if s.last().status == st { 1nat } else { 0nat }
    }
}

/// Dependency checks on task `x` read only tasks before `x`, so two states
/// that agree there on which tasks completed and which failed agree on them.
proof fn lemma_marks_agree(a: Seq<TaskSlot>, b: Seq<TaskSlot>, d: Seq<Seq<usize>>, x: int)
    requires
        0 <= x < d.len(),
        deps_earlier(d),
        a.len() == d.len(),
        b.len() == d.len(),
        forall|k: int| 0 <= k < x ==> ((#[trigger] a[k]).status == TaskStatus::Completed) == (b[k].status
            == TaskStatus::Completed),
        forall|k: int| 0 <= k < x ==> ((#[trigger] a[k]).status == TaskStatus::Failed) == (b[k].status
            == TaskStatus::Failed),
    ensures
        deps_done(a, d, x) == deps_done(b, d, x),
        dep_failed(a, d, x) == dep_failed(b, d, x),
{
    assert forall|k: int| 0 <= k < d[x].len() implies (#[trigger] a[d[x][k] as int]).status == b[d[x][k] as int].status
        || (a[d[x][k] as int].status != TaskStatus::Completed && b[d[x][k] as int].status != TaskStatus::Completed
            && a[d[x][k] as int].status != TaskStatus::Failed && b[d[x][k] as int].status != TaskStatus::Failed) by {
        assert(d[x][k] < x);
    }
    if deps_done(a, d, x) {
        assert forall|k: int| 0 <= k < d[x].len() implies #[trigger] b[d[x][k] as int].status == TaskStatus::Completed by {
            assert(a[d[x][k] as int].status == TaskStatus::Completed);
        }
    }
    if deps_done(b, d, x) {
        assert forall|k: int| 0 <= k < d[x].len() implies #[trigger] a[d[x][k] as int].status == TaskStatus::Completed by {
            assert(b[d[x][k] as int].status == TaskStatus::Completed);
        }
    }
    if dep_failed(a, d, x) {
        let k = choose|k: int| 0 <= k < d[x].len() && #[trigger] a[d[x][k] as int].status == TaskStatus::Failed;
        assert(b[d[x][k] as int].status == TaskStatus::Failed);
    }
    if dep_failed(b, d, x) {
        let k = choose|k: int| 0 <= k < d[x].len() && #[trigger] b[d[x][k] as int].status == TaskStatus::Failed;
        assert(a[d[x][k] as int].status == TaskStatus::Failed);
    }
}

/// Two states that agree on which tasks failed agree on failed dependencies.
proof fn lemma_failed_agree(a: Seq<TaskSlot>, b: Seq<TaskSlot>, d: Seq<Seq<usize>>, x: int)
    requires
        0 <= x < d.len(),
        deps_earlier(d),
        a.len() == d.len(),
        b.len() == d.len(),
        forall|k: int| 0 <= k < a.len() ==> ((#[trigger] a[k]).status == TaskStatus::Failed) == (b[k].status
            == TaskStatus::Failed),
    ensures
        dep_failed(a, d, x) == dep_failed(b, d, x),
{
    if dep_failed(a, d, x) {
        let k = choose|k: int| 0 <= k < d[x].len() && #[trigger] a[d[x][k] as int].status == TaskStatus::Failed;
        assert(d[x][k] < x);
        assert(b[d[x][k] as int].status == TaskStatus::Failed);
    }
    if dep_failed(b, d, x) {
        let k = choose|k: int| 0 <= k < d[x].len() && #[trigger] b[d[x][k] as int].status == TaskStatus::Failed;
        assert(d[x][k] < x);
        assert(a[d[x][k] as int].status == TaskStatus::Failed);
    }
}

/// A task that newly completed, with no dependency failed, leaves every
/// completed-dependency check that held still holding.
proof fn lemma_done_grows(a: Seq<TaskSlot>, b: Seq<TaskSlot>, d: Seq<Seq<usize>>, x: int)
    requires
        0 <= x < d.len(),
        a.len() == d.len(),
        b.len() == d.len(),
        forall|k: int| 0 <= k < a.len() && (#[trigger] a[k]).status == TaskStatus::Completed ==> b[k].status
            == TaskStatus::Completed,
        deps_done(a, d, x),
        forall|k: int| 0 <= k < d[x].len() ==> 0 <= #[trigger] d[x][k] < a.len(),
    ensures
        deps_done(b, d, x),
{
    assert forall|k: int| 0 <= k < d[x].len() implies #[trigger] b[d[x][k] as int].status == TaskStatus::Completed by {
        assert(a[d[x][k] as int].status == TaskStatus::Completed);
    }
}

/// Task `a` lists task `b` among its dependencies.
pub open spec fn depends_directly(d: Seq<Seq<usize>>, a: int, b: int) -> bool {
    exists|k: int| 0 <= k < d[a].len() && d[a][k] == b
}

/// `p` is a chain of tasks in which each task depends directly on the next.
pub open spec fn dependency_chain(d: Seq<Seq<usize>>, p: Seq<int>) -> bool {
    &&& p.len() >= 2
    &&& forall|t: int| 0 <= t < p.len() ==> 0 <= #[trigger] p[t] < d.len()
    &&& forall|t: int| 0 <= t < p.len() - 1 ==> #[trigger] depends_directly(d, p[t], p[t + 1])
}

/// Along a dependency chain the positions strictly decrease.
proof fn lemma_chain_decreases(d: Seq<Seq<usize>>, p: Seq<int>, t: int)
    requires
        deps_earlier(d),
        dependency_chain(d, p),
        0 <= t < p.len(),
    ensures
        p[t] <= p[0] - t,
    decreases t,
{
    if t > 0 {
        lemma_chain_decreases(d, p, t - 1);
        let u = t - 1;
        assert(depends_directly(d, p[u], p[u + 1]));
        let k = choose|k: int| 0 <= k < d[p[u]].len() && d[p[u]][k] == p[u + 1];
        assert(d[p[u]][k] < p[u]);
    }
}

/// No task of a well-formed graph depends on itself, directly or through
/// other tasks: the graph is acyclic.
pub proof fn lemma_graph_acyclic(s: Seq<TaskSlot>, d: Seq<Seq<usize>>, p: Seq<int>)
    requires
        graph_wf(s, d),
        dependency_chain(d, p),
    ensures
        p.last() != p[0],
{
    lemma_chain_decreases(d, p, p.len() - 1);
}

/// A task handed out by one call of `next_ready_for` is not handed out by
/// the next call, whatever role asks, until it is reported on: the two
/// calls return different task identities (`lemma_graph` gives `ids_unique`
/// of a well-formed queue).
pub proof fn lemma_no_double_handout(
    s0: Seq<TaskSlot>,
    i: int,
    role1: AgentRole,
    agent: AgentId,
    j: int,
    role2: AgentRole,
)
    requires
        ids_unique(s0),
        best_for(s0, i, role1),
        best_for(
            s0.update(i, TaskSlot { status: TaskStatus::Assigned, assigned_to: Some(agent), ..s0[i] }),
            j,
            role2,
        ),
    ensures
        j != i,
        s0[j].id != s0[i].id,
{
}

/// An agent's in-flight task goes back to `Ready` once when the agent is
/// released, keeping its identity, and is assigned to nobody.
pub proof fn lemma_release_requeues_once(slot: TaskSlot, agent: AgentId)
    requires
        slot.status == TaskStatus::Assigned,
        slot.assigned_to == Some(agent),
    ensures
        after_release(slot, agent).status == TaskStatus::Ready,
        after_release(slot, agent).assigned_to is None,
        after_release(slot, agent).id == slot.id,
        after_release(after_release(slot, agent), agent) == after_release(slot, agent),
{
}

/// Every dependency of an assigned task is completed: no task is started
/// before its dependencies.
pub proof fn lemma_assigned_after_deps(s: Seq<TaskSlot>, d: Seq<Seq<usize>>, i: int, k: int)
    requires
        graph_wf(s, d),
        0 <= i < s.len(),
        s[i].status == TaskStatus::Assigned,
        0 <= k < d[i].len(),
    ensures
        s[d[i][k] as int].status == TaskStatus::Completed,
{
    assert(status_consistent(s, d, i));
}

/// When no task is ready or in flight, every task of a well-formed graph is
/// completed or failed: a pending task never waits on work that cannot come.
pub proof fn lemma_no_stuck_pending(s: Seq<TaskSlot>, d: Seq<Seq<usize>>, m: int)
    requires
        graph_wf(s, d),
        0 <= m <= s.len(),
        forall|x: int| 0 <= x < s.len() ==> (#[trigger] s[x]).status != TaskStatus::Ready
            && s[x].status != TaskStatus::Assigned,
    ensures
        forall|x: int| 0 <= x < m ==> (#[trigger] s[x]).status == TaskStatus::Completed
            || s[x].status == TaskStatus::Failed,
    decreases m,
{
    if m > 0 {
        lemma_no_stuck_pending(s, d, m - 1);
        let x = m - 1;
        assert(status_consistent(s, d, x));
        if s[x].status == TaskStatus::Pending {
            assert forall|k: int| 0 <= k < d[x].len() implies #[trigger] s[d[x][k] as int].status == TaskStatus::Completed by {
                assert(d[x][k] < x);
                if s[d[x][k] as int].status == TaskStatus::Failed {
                    assert(dep_failed(s, d, x));
                }
            }
        }
    }
}

impl TaskQueue {
    /// The scheduling records, in enqueue order.
    pub closed spec fn slots(&self) -> Seq<TaskSlot> {
        self.slots@
    }

    /// The positions of each task's dependencies.
    pub closed spec fn deps(&self) -> Seq<Seq<usize>> {
        self.deps@.map_values(|v: Vec<usize>| v@)
    }

    /// How many retryable failures a task may have before it fails.
    pub closed spec fn budget(&self) -> u32 {
        self.retry_budget
    }

    /// What a well-formed queue guarantees of its graph: consistent
    /// statuses, dependencies on earlier tasks only, and unique identities.
    pub proof fn lemma_graph(&self)
        requires
            self.wf(),
        ensures
            graph_wf(self.slots(), self.deps()),
            ids_unique(self.slots()),
    {
    }

    pub closed spec fn wf(&self) -> bool {
        &&& graph_wf(self.slots(), self.deps())
        &&& self.slots@.len() == self.deps@.len()
        &&& self.tasks@.len() == self.slots@.len()
        &&& forall|i: int| 0 <= i < self.slots@.len() ==> #[trigger] self.tasks@[i].id == self.slots@[i].id
        &&& forall|i: int| 0 <= i < self.slots@.len() ==>
            #[trigger] self.tasks@[i].dependencies@.len() == self.deps@[i]@.len()
        &&& forall|i: int, k: int| 0 <= i < self.slots@.len() && 0 <= k < self.deps@[i]@.len() ==>
            self.slots@[#[trigger] self.deps@[i]@[k] as int].id == self.tasks@[i].dependencies@[k]
    }

    /// An empty queue with the default retry budget.
    pub fn new() -> (q: TaskQueue)
        ensures
            q.wf(),
            q.slots().len() == 0,
            q.budget() == DEFAULT_RETRY_BUDGET,
    {
        TaskQueue::with_retry_budget(DEFAULT_RETRY_BUDGET)
    }

    /// An empty queue whose tasks may fail retryably `budget` times.
    pub fn with_retry_budget(budget: u32) -> (q: TaskQueue)
        ensures
            q.wf(),
            q.slots().len() == 0,
            q.budget() == budget,
    {
        let q = TaskQueue { slots: Vec::new(), deps: Vec::new(), tasks: Vec::new(), retry_budget: budget };
        proof {
            assert(q.deps() =~= Seq::<Seq<usize>>::empty());
        }
        q
    }

    /// Number of tasks in the graph.
    pub fn len(&self) -> (r: usize)
        requires
            self.wf(),
        ensures
            r == self.slots().len(),
    {
        self.slots.len()
    }

    /// The position of the task with identity `id`.
    pub fn index_of(&self, id: TaskId) -> (r: Option<usize>)
        requires
            self.wf(),
        ensures
            match r {
                Some(i) => i < self.slots().len() && self.slots()[i as int].id == id,
                None => !has_id(self.slots(), id),
            },
    {
        let mut i: usize = 0;
        while i < self.slots.len()
            invariant
                i <= self.slots@.len(),
                forall|j: int| 0 <= j < i ==> self.slots@[j].id != id,
            decreases self.slots@.len() - i,
        {
            if self.slots[i].id == id {
                return Some(i);
            }
            i = i + 1;
        }
        None
    }

    /// The scheduling status of the task with identity `id`.
    pub fn status_of(&self, id: TaskId) -> (r: Option<TaskStatus>)
        requires
            self.wf(),
        ensures
            match r {
                Some(st) => exists|i: int| 0 <= i < self.slots().len() && self.slots()[i].id == id
                    && self.slots()[i].status == st,
                None => !has_id(self.slots(), id),
            },
    {
        match self.index_of(id) {
            Some(i) => Some(self.slots[i].status),
            None => None,
        }
    }

    /// The agent that the task with identity `id` is assigned to.
    pub fn assignee_of(&self, id: TaskId) -> (r: Option<AgentId>)
        requires
            self.wf(),
        ensures
            match r {
                Some(a) => exists|i: int| 0 <= i < self.slots().len() && self.slots()[i].id == id
                    && self.slots()[i].assigned_to == Some(a),
                None => forall|i: int| 0 <= i < self.slots().len() && self.slots()[i].id == id
                    ==> self.slots()[i].assigned_to is None,
            },
    {
        match self.index_of(id) {
            Some(i) => self.slots[i].assigned_to,
            None => None,
        }
    }

    /// Adds a task to the graph.
    ///
    /// A task whose identity is taken is refused with `DuplicateTask`; one that
    /// lists itself among its dependencies with `CyclicDependency`; one that
    /// names a task not in the graph with `UnknownDependency`. A refused task
    /// leaves the graph unchanged. An accepted task is `Ready` when all its
    /// dependencies are completed, `Failed` when one of them failed, and
    /// `Pending` otherwise.
    pub fn enqueue(&mut self, task: Task) -> (r: Result<(), SwarmError>)
        requires
            old(self).wf(),
        ensures
            final(self).wf(),
            final(self).budget() == old(self).budget(),
            has_id(old(self).slots(), task.id) ==> r == Err::<(), SwarmError>(SwarmError::DuplicateTask),
            !has_id(old(self).slots(), task.id) && task.dependencies@.contains(task.id)
                ==> r == Err::<(), SwarmError>(SwarmError::CyclicDependency),
            !has_id(old(self).slots(), task.id) && !task.dependencies@.contains(task.id)
                && (exists|k: int| 0 <= k < task.dependencies@.len()
                    && !has_id(old(self).slots(), #[trigger] task.dependencies@[k]))
                ==> r == Err::<(), SwarmError>(SwarmError::UnknownDependency),
            r is Err ==> final(self).slots() == old(self).slots() && final(self).deps() == old(self).deps(),
            (r is Ok) == (!has_id(old(self).slots(), task.id) && !task.dependencies@.contains(task.id)
                && forall|k: int| 0 <= k < task.dependencies@.len()
                    ==> has_id(old(self).slots(), #[trigger] task.dependencies@[k])),
            r is Ok ==> {
                &&& !has_id(old(self).slots(), task.id)
                &&& !task.dependencies@.contains(task.id)
                &&& forall|k: int| 0 <= k < task.dependencies@.len()
                    ==> has_id(old(self).slots(), #[trigger] task.dependencies@[k])
                &&& final(self).deps() == old(self).deps().push(final(self).deps().last())
                &&& final(self).deps().last().len() == task.dependencies@.len()
                &&& forall|k: int| 0 <= k < task.dependencies@.len() ==> {
                    &&& (#[trigger] final(self).deps().last()[k]) < old(self).slots().len()
                    &&& old(self).slots()[final(self).deps().last()[k] as int].id == task.dependencies@[k]
                }
                &&& final(self).slots() == old(self).slots().push(TaskSlot {
                    id: task.id,
                    priority: task.priority,
                    role: task.role,
                    status: entry_status(old(self).slots(), final(self).deps().last()),
                    assigned_to: None,
                    retries: 0,
                })
            },
    {
        if self.index_of(task.id).is_some() {
            return Err(SwarmError::DuplicateTask);
        }
        let n = task.dependencies.len();
        let mut k: usize = 0;
        while k < n
            invariant
                self.wf(),
                n == task.dependencies@.len(),
                k <= n,
                !has_id(self.slots(), task.id),
                forall|j: int| 0 <= j < k ==> task.dependencies@[j] != task.id,
            decreases n - k,
        {
            if task.dependencies[k] == task.id {
                return Err(SwarmError::CyclicDependency);
            }
            k = k + 1;
        }
        proof {
            assert(!task.dependencies@.contains(task.id));
        }
        let mut positions: Vec<usize> = Vec::new();
        let mut all_done = true;
        let mut any_failed = false;
        k = 0;
        while k < n
            invariant
                self.wf(),
                n == task.dependencies@.len(),
                k <= n,
                !has_id(self.slots(), task.id),
                !task.dependencies@.contains(task.id),
                forall|j: int| 0 <= j < k ==> has_id(self.slots(), #[trigger] task.dependencies@[j]),
                positions@.len() == k,
                forall|j: int| 0 <= j < k ==> #[trigger] positions@[j] < self.slots@.len(),
                forall|j: int| 0 <= j < k ==> self.slots@[#[trigger] positions@[j] as int].id == task.dependencies@[j],
                all_done == (forall|j: int| 0 <= j < k ==> #[trigger] self.slots@[positions@[j] as int].status
                    == TaskStatus::Completed),
                any_failed == (exists|j: int| 0 <= j < k && #[trigger] self.slots@[positions@[j] as int].status
                    == TaskStatus::Failed),
            decreases n - k,
        {
            match self.index_of(task.dependencies[k]) {
                None => {
                    return Err(SwarmError::UnknownDependency);
                },
                Some(p) => {
                    let st = self.slots[p].status;
                    if st != TaskStatus::Completed {
                        all_done = false;
                    }
                    if st == TaskStatus::Failed {
                        any_failed = true;
                    }
                    let ghost prev = positions@;
                    positions.push(p);
                    proof {
                        assert(positions@[k as int] == p);
                        assert forall|j: int| 0 <= j < k implies positions@[j] == prev[j] by {}
                        if st != TaskStatus::Completed {
                            assert(self.slots@[positions@[k as int] as int].status != TaskStatus::Completed);
                        }
                        if st == TaskStatus::Failed {
                            assert(self.slots@[positions@[k as int] as int].status == TaskStatus::Failed);
                        }
                        assert(has_id(self.slots(), task.dependencies@[k as int]));
                    }
                },
            }
            k = k + 1;
        }
        let status = if any_failed {
            TaskStatus::Failed
        } else if all_done {
            TaskStatus::Ready
        } else {
            TaskStatus::Pending
        };
        let slot = TaskSlot {
            id: task.id,
            priority: task.priority,
            role: task.role,
            status,
            assigned_to: None,
            retries: 0,
        };
        let ghost old_s = self.slots@;
        let ghost old_d = self.deps();
        let ghost ps = positions@;
        self.slots.push(slot);
        self.deps.push(positions);
        self.tasks.push(task);
        proof {
            let s = self.slots@;
            let d = self.deps();
            let idx = old_s.len() as int;
            assert(d =~= old_d.push(ps));
            assert(s =~= old_s.push(slot));
            assert forall|i: int| 0 <= i < s.len() implies #[trigger] status_consistent(s, d, i) by {
                if i < idx {
                    assert(status_consistent(old_s, old_d, i));
                    assert forall|k: int| 0 <= k < d[i].len() implies #[trigger] s[d[i][k] as int] == old_s[old_d[i][k] as int] by {
                        assert(old_d[i][k] < i);
                    }
                    if old_s[i].status == TaskStatus::Pending {
                        if dep_failed(s, d, i) {
                            let k = choose|k: int| 0 <= k < d[i].len() && #[trigger] s[d[i][k] as int].status == TaskStatus::Failed;
                            assert(old_s[old_d[i][k] as int].status == TaskStatus::Failed);
                        }
                        if deps_done(s, d, i) {
                            assert forall|k: int| 0 <= k < old_d[i].len() implies #[trigger] old_s[old_d[i][k] as int].status == TaskStatus::Completed by {
                                assert(s[d[i][k] as int].status == TaskStatus::Completed);
                            }
                        }
                    }
                } else {
                    assert(i == idx);
                    assert(d[i] == ps);
                    assert forall|k: int| 0 <= k < d[i].len() implies #[trigger] s[d[i][k] as int] == old_s[ps[k] as int] by {
                        assert(ps[k] < idx);
                    }
                    if any_failed {
                        let j = choose|j: int| 0 <= j < ps.len() && #[trigger] old_s[ps[j] as int].status == TaskStatus::Failed;
                        assert(s[d[i][j] as int].status == TaskStatus::Failed);
                    } else if all_done {
                    } else {
                        let j = choose|j: int| 0 <= j < ps.len() && #[trigger] old_s[ps[j] as int].status != TaskStatus::Completed;
                        assert(s[d[i][j] as int].status != TaskStatus::Completed);
                    }
                }
            }
            assert forall|i: int, k: int| 0 <= i < d.len() && 0 <= k < d[i].len() implies #[trigger] d[i][k] < i by {
                if i < idx {
                    assert(old_d[i][k] < i);
                }
            }
            assert forall|k: int| 0 <= k < task.dependencies@.len() implies has_id(old_s, #[trigger] task.dependencies@[k]) by {
                assert(old_s[ps[k] as int].id == task.dependencies@[k]);
            }
            assert(d.last() == ps);
            assert forall|k: int| 0 <= k < task.dependencies@.len() implies (#[trigger] ps[k]) < old_s.len()
                && old_s[ps[k] as int].id == task.dependencies@[k] by {}
            let t = self.tasks@;
            assert(t[idx].dependencies@.len() == ps.len());
            assert forall|i: int, k: int| 0 <= i < s.len() && 0 <= k < self.deps@[i]@.len() implies
                s[#[trigger] self.deps@[i]@[k] as int].id == t[i].dependencies@[k] by {
                assert(self.deps@[i]@ == d[i]);
                if i < idx {
                    assert(old_d[i][k] < i);
                }
            }
        }
        Ok(())
    }

    /// Whether every dependency of the task at `j` is completed.
    fn deps_all_done(&self, j: usize) -> (r: bool)
        requires
            self.slots@.len() == self.deps@.len(),
            j < self.slots@.len(),
            deps_earlier(self.deps()),
        ensures
            r == deps_done(self.slots@, self.deps(), j as int),
    {
        let ds = &self.deps[j];
        let ghost dj = self.deps()[j as int];
        assert(ds@ == dj);
        let mut k: usize = 0;
        while k < ds.len()
            invariant
                ds@ == dj,
                dj == self.deps()[j as int],
                self.slots@.len() == self.deps@.len(),
                j < self.slots@.len(),
                deps_earlier(self.deps()),
                k <= dj.len(),
                forall|m: int| 0 <= m < k ==> #[trigger] self.slots@[dj[m] as int].status == TaskStatus::Completed,
            decreases dj.len() - k,
        {
            let p = ds[k];
            assert(self.deps()[j as int][k as int] < j);
            if self.slots[p].status != TaskStatus::Completed {
                return false;
            }
            k = k + 1;
        }
        true
    }

    /// Whether some dependency of the task at `j` has failed.
    fn any_dep_failed(&self, j: usize) -> (r: bool)
        requires
            self.slots@.len() == self.deps@.len(),
            j < self.slots@.len(),
            deps_earlier(self.deps()),
        ensures
            r == dep_failed(self.slots@, self.deps(), j as int),
    {
        let ds = &self.deps[j];
        let ghost dj = self.deps()[j as int];
        assert(ds@ == dj);
        let mut k: usize = 0;
        while k < ds.len()
            invariant
                ds@ == dj,
                dj == self.deps()[j as int],
                self.slots@.len() == self.deps@.len(),
                j < self.slots@.len(),
                deps_earlier(self.deps()),
                k <= dj.len(),
                forall|m: int| 0 <= m < k ==> #[trigger] self.slots@[dj[m] as int].status != TaskStatus::Failed,
            decreases dj.len() - k,
        {
            let p = ds[k];
            assert(self.deps()[j as int][k as int] < j);
            if self.slots[p].status == TaskStatus::Failed {
                return true;
            }
            k = k + 1;
        }
        false
    }

    /// Hands the best ready task for an agent of role `role` to `agent`.
    ///
    /// The task handed out is ready, bound to `role` or to no role, of the
    /// highest priority among such tasks, and the earliest enqueued among
    /// those of that priority; it becomes `Assigned` to `agent`, so no other
    /// caller receives it until it is reported on.
    pub fn next_ready_for(&mut self, role: AgentRole, agent: AgentId) -> (r: Option<TaskId>)
        requires
            old(self).wf(),
        ensures
            final(self).wf(),
            final(self).budget() == old(self).budget(),
            final(self).deps() == old(self).deps(),
            match r {
                None => final(self).slots() == old(self).slots()
                    && forall|i: int| !#[trigger] eligible(old(self).slots(), i, role),
                Some(id) => exists|i: int| #[trigger] best_for(old(self).slots(), i, role)
                    && old(self).slots()[i].id == id
                    && final(self).slots() == old(self).slots().update(i, TaskSlot {
                        status: TaskStatus::Assigned,
                        assigned_to: Some(agent),
                        ..old(self).slots()[i]
                    }),
            },
    {
        let ghost s0 = self.slots();
        let r = self.pick(Some(role), agent);
        proof {
            lemma_admits_role(s0, role);
            match r {
                None => {
                    assert forall|i: int| !#[trigger] eligible(s0, i, role) by {
                        assert(!admits(s0, i, Some(role)));
                    }
                },
                Some(id) => {
                    let i = choose|i: int| #[trigger] best_admitted(s0, i, Some(role)) && s0[i].id == id
                        && self.slots() == s0.update(i, TaskSlot { status: TaskStatus::Assigned, assigned_to: Some(agent), ..s0[i] });
                    assert(best_for(s0, i, role));
                },
            }
        }
        r
    }

    /// Hands the best ready task, whatever role it is bound to, to `agent`.
    ///
    /// The task handed out is ready, of the highest priority among ready
    /// tasks, and the earliest enqueued among those of that priority; it
    /// becomes `Assigned` to `agent`.
    pub fn dequeue(&mut self, agent: AgentId) -> (r: Option<TaskId>)
        requires
            old(self).wf(),
        ensures
            final(self).wf(),
            final(self).budget() == old(self).budget(),
            final(self).deps() == old(self).deps(),
            match r {
                None => final(self).slots() == old(self).slots()
                    && forall|i: int| !#[trigger] ready_at(old(self).slots(), i),
                Some(id) => exists|i: int| #[trigger] best_ready(old(self).slots(), i)
                    && old(self).slots()[i].id == id
                    && final(self).slots() == old(self).slots().update(i, TaskSlot {
                        status: TaskStatus::Assigned,
                        assigned_to: Some(agent),
                        ..old(self).slots()[i]
                    }),
            },
    {
        let ghost s0 = self.slots();
        let r = self.pick(None, agent);
        proof {
            lemma_admits_any(s0);
            match r {
                None => {
                    assert forall|i: int| !#[trigger] ready_at(s0, i) by {
                        assert(!admits(s0, i, None));
                    }
                },
                Some(id) => {
                    let i = choose|i: int| #[trigger] best_admitted(s0, i, None) && s0[i].id == id
                        && self.slots() == s0.update(i, TaskSlot { status: TaskStatus::Assigned, assigned_to: Some(agent), ..s0[i] });
                    assert(best_ready(s0, i));
                },
            }
        }
        r
    }

    /// Hands to `agent` the best ready task among those that `role`
    /// admits (all of them when `role` is `None`).
    fn pick(&mut self, role: Option<AgentRole>, agent: AgentId) -> (r: Option<TaskId>)
        requires
            old(self).wf(),
        ensures
            final(self).wf(),
            final(self).budget() == old(self).budget(),
            final(self).deps() == old(self).deps(),
            match r {
                None => final(self).slots() == old(self).slots()
                    && forall|i: int| !#[trigger] admits(old(self).slots(), i, role),
                Some(id) => exists|i: int| #[trigger] best_admitted(old(self).slots(), i, role)
                    && old(self).slots()[i].id == id
                    && final(self).slots() == old(self).slots().update(i, TaskSlot {
                        status: TaskStatus::Assigned,
                        assigned_to: Some(agent),
                        ..old(self).slots()[i]
                    }),
            },
    {
        let mut best: Option<usize> = None;
        let mut i: usize = 0;
        while i < self.slots.len()
            invariant
                self.wf(),
                *self == *old(self),
                i <= self.slots@.len(),
                match best {
                    None => forall|j: int| 0 <= j < i ==> !#[trigger] admits(self.slots@, j, role),
                    Some(b) => b < i && admits(self.slots@, b as int, role)
                        && forall|j: int| 0 <= j < i && #[trigger] admits(self.slots@, j, role) ==>
                            self.slots@[j].priority < self.slots@[b as int].priority
                            || (self.slots@[j].priority == self.slots@[b as int].priority && b <= j),
                },
            decreases self.slots@.len() - i,
        {
            let sl = self.slots[i];
            let fits = match role {
                None => true,
                Some(q) => match sl.role {
                    None => true,
                    Some(t) => t == q,
                },
            };
            if sl.status == TaskStatus::Ready && fits {
                match best {
                    None => {
                        best = Some(i);
                    },
                    Some(b) => {
                        if sl.priority > self.slots[b].priority {
                            best = Some(i);
                        }
                    },
                }
            }
            i = i + 1;
        }
        match best {
            None => None,
            Some(b) => {
                let ghost s0 = self.slots@;
                let cur = self.slots[b];
                let next = TaskSlot { status: TaskStatus::Assigned, assigned_to: Some(agent), ..cur };
                self.slots.set(b, next);
                proof {
                    let s1 = self.slots@;
                    let d = self.deps();
                    assert(best_admitted(s0, b as int, role));
                    assert forall|x: int| 0 <= x < s1.len() implies (#[trigger] s1[x]).id == s0[x].id by {}
                    assert forall|x: int| 0 <= x < s1.len() implies #[trigger] status_consistent(s1, d, x) by {
                        assert(status_consistent(s0, d, x));
                        lemma_marks_agree(s0, s1, d, x);
                    }
                    assert(graph_wf(s1, d));
                    assert(s1.len() == self.deps@.len());
                    assert(self.tasks@.len() == s1.len());
                    assert(forall|i: int| 0 <= i < self.slots@.len() ==> #[trigger] self.tasks@[i].id == self.slots@[i].id);
                    assert(forall|i: int| 0 <= i < self.slots@.len() ==>
                        #[trigger] self.tasks@[i].dependencies@.len() == self.deps@[i]@.len());
                    assert forall|i: int, k: int| 0 <= i < s1.len() && 0 <= k < self.deps@[i]@.len() implies
                        s1[#[trigger] self.deps@[i]@[k] as int].id == self.tasks@[i].dependencies@[k] by {
                        assert(s0[self.deps@[i]@[k] as int].id == self.tasks@[i].dependencies@[k]);
                        assert(self.deps@[i]@ == d[i]);
                        assert(d[i][k] < i);
                    }
                    assert(self.wf());
                }
                Some(cur.id)
            },
        }
    }

    /// A queue whose statuses changed but whose graph and identities did not
    /// stays well formed once the statuses are consistent.
    proof fn lemma_wf_kept(&self, q0: TaskQueue)
        requires
            q0.wf(),
            self.deps == q0.deps,
            self.tasks == q0.tasks,
            self.slots@.len() == q0.slots@.len(),
            forall|x: int| 0 <= x < self.slots@.len() ==> (#[trigger] self.slots@[x]).id == q0.slots@[x].id,
            forall|x: int| 0 <= x < self.slots@.len() ==> #[trigger] status_consistent(self.slots@, self.deps(), x),
        ensures
            self.wf(),
    {
        let s0 = q0.slots@;
        let s1 = self.slots@;
        let d = self.deps();
        assert forall|i: int, j: int| 0 <= i < s1.len() && 0 <= j < s1.len() && i != j implies s1[i].id != s1[j].id by {
            assert(s0[i].id != s0[j].id);
        }
        assert forall|i: int, k: int| 0 <= i < s1.len() && 0 <= k < self.deps@[i]@.len() implies
            s1[#[trigger] self.deps@[i]@[k] as int].id == self.tasks@[i].dependencies@[k] by {
            assert(s0[self.deps@[i]@[k] as int].id == self.tasks@[i].dependencies@[k]);
            assert(self.deps@[i]@ == d[i]);
            assert(d[i][k] < i);
        }
    }

    /// Records that the task `task_id`, assigned to `agent`, completed.
    ///
    /// Every pending task whose dependencies are then all completed becomes
    /// ready. An unknown task is refused with `TaskNotFound`; a task that is
    /// not assigned to `agent` with `TaskNotAssigned`; either leaves the queue
    /// unchanged.
    pub fn report_completion(&mut self, task_id: TaskId, agent: AgentId) -> (r: Result<(), SwarmError>)
        requires
            old(self).wf(),
        ensures
            final(self).wf(),
            final(self).budget() == old(self).budget(),
            final(self).deps() == old(self).deps(),
            !has_id(old(self).slots(), task_id) ==> r == Err::<(), SwarmError>(SwarmError::TaskNotFound),
            forall|i: int| 0 <= i < old(self).slots().len() && #[trigger] old(self).slots()[i].id == task_id ==> {
                &&& (r is Ok) == (old(self).slots()[i].status == TaskStatus::Assigned
                    && old(self).slots()[i].assigned_to == Some(agent))
                &&& r is Err ==> r == Err::<(), SwarmError>(SwarmError::TaskNotAssigned)
                &&& r is Ok ==> {
                    let mid = old(self).slots().update(i, TaskSlot {
                        status: TaskStatus::Completed,
                        assigned_to: None,
                        ..old(self).slots()[i]
                    });
                    &&& final(self).slots().len() == mid.len()
                    &&& forall|j: int| 0 <= j < mid.len() ==>
                        #[trigger] final(self).slots()[j] == after_completion(mid, old(self).deps(), j)
                }
            },
            r is Err ==> final(self).slots() == old(self).slots(),
    {
        let i = match self.index_of(task_id) {
            None => {
                return Err(SwarmError::TaskNotFound);
            },
            Some(i) => i,
        };
        let cur = self.slots[i];
        if cur.status != TaskStatus::Assigned || cur.assigned_to != Some(agent) {
            proof {
                assert forall|x: int| 0 <= x < self.slots@.len() && #[trigger] self.slots@[x].id == task_id implies x == i by {}
            }
            return Err(SwarmError::TaskNotAssigned);
        }
        let ghost q0 = *self;
        let ghost d = self.deps();
        self.slots.set(i, TaskSlot { status: TaskStatus::Completed, assigned_to: None, ..cur });
        let ghost mid = self.slots@;
        let n = self.slots.len();
        let mut j: usize = 0;
        while j < n
            invariant
                q0.wf(),
                d == q0.deps(),
                self.deps == q0.deps,
                self.tasks == q0.tasks,
                self.retry_budget == q0.retry_budget,
                n == self.slots@.len(),
                n == q0.slots@.len(),
                mid.len() == n,
                j <= n,
                forall|x: int| 0 <= x < n ==> ((#[trigger] self.slots@[x]).status == TaskStatus::Completed) == (mid[x].status
                    == TaskStatus::Completed),
                forall|x: int| 0 <= x < n ==> ((#[trigger] self.slots@[x]).status == TaskStatus::Failed) == (mid[x].status
                    == TaskStatus::Failed),
                forall|x: int| 0 <= x < j ==> #[trigger] self.slots@[x] == after_completion(mid, d, x),
                forall|x: int| j <= x < n ==> #[trigger] self.slots@[x] == mid[x],
            decreases n - j,
        {
            let sl = self.slots[j];
            if sl.status == TaskStatus::Pending {
                let done = self.deps_all_done(j);
                proof {
                    lemma_marks_agree(self.slots@, mid, d, j as int);
                }
                if done {
                    self.slots.set(j, TaskSlot { status: TaskStatus::Ready, ..sl });
                }
            } else {
                proof {
                    assert(self.slots@[j as int] == after_completion(mid, d, j as int));
                }
            }
            j = j + 1;
        }
        proof {
            let s0 = q0.slots@;
            let s1 = self.slots@;
            assert forall|x: int| 0 <= x < s1.len() implies #[trigger] status_consistent(s1, d, x) by {
                assert(status_consistent(s0, d, x));
                lemma_marks_agree(s1, mid, d, x);
                if x != i {
                    if s0[x].status != TaskStatus::Pending {
                        assert(s1[x] == s0[x]);
                        if deps_done(s0, d, x) {
                            lemma_done_grows(s0, s1, d, x);
                        }
                    } else {
                        lemma_failed_agree(s0, mid, d, x);
                    }
                } else {
                    lemma_done_grows(s0, s1, d, x);
                }
            }
            self.lemma_wf_kept(q0);
        }
        Ok(())
    }

    /// Fails every pending task with a failed dependency, in enqueue order,
    /// so that failure reaches the transitive dependents too.
    #[verifier::spinoff_prover]
    #[verifier::rlimit(60)]
    fn fail_dependents(&mut self)
        requires
            old(self).slots@.len() == old(self).deps@.len(),
            deps_earlier(old(self).deps()),
        ensures
            final(self).deps == old(self).deps,
            final(self).tasks == old(self).tasks,
            final(self).retry_budget == old(self).retry_budget,
            final(self).slots@.len() == old(self).slots@.len(),
            forall|x: int| 0 <= x < old(self).slots@.len() ==> #[trigger] final(self).slots@[x]
                == after_failure(old(self).slots@[x], final(self).slots@, old(self).deps(), x),
    {
        let ghost mid = self.slots@;
        let ghost d = self.deps();
        let n = self.slots.len();
        let mut j: usize = 0;
        while j < n
            invariant
                self.deps == old(self).deps,
                self.tasks == old(self).tasks,
                self.retry_budget == old(self).retry_budget,
                mid == old(self).slots@,
                d == old(self).deps(),
                deps_earlier(d),
                d.len() == n,
                n == self.slots@.len(),
                mid.len() == n,
                j <= n,
                forall|x: int| 0 <= x < j ==> #[trigger] self.slots@[x] == after_failure(mid[x], self.slots@, d, x),
                forall|x: int| j <= x < n ==> #[trigger] self.slots@[x] == mid[x],
            decreases n - j,
        {
            let ghost before = self.slots@;
            let sl = self.slots[j];
            if sl.status == TaskStatus::Pending {
                let failed = self.any_dep_failed(j);
                if failed {
                    self.slots.set(j, TaskSlot { status: TaskStatus::Failed, ..sl });
                }
            }
            proof {
                let now = self.slots@;
                assert forall|x: int| 0 <= x <= j implies #[trigger] now[x] == after_failure(mid[x], now, d, x) by {
                    lemma_marks_agree(before, now, d, x);
                }
            }
            j = j + 1;
        }
    }

    /// Records that the task `task_id`, assigned to `agent`, failed.
    ///
    /// A retryable failure within the retry budget makes the task ready
    /// again, for any agent. Any other failure makes it `Failed`, and with it
    /// every pending task that depends on it, directly or transitively. An
    /// unknown task is refused with `TaskNotFound`; a task that is not
    /// assigned to `agent` with `TaskNotAssigned`; either leaves the queue
    /// unchanged.
    pub fn report_failure(&mut self, task_id: TaskId, agent: AgentId, retryable: bool) -> (r: Result<(), SwarmError>)
        requires
            old(self).wf(),
        ensures
            final(self).wf(),
            final(self).budget() == old(self).budget(),
            final(self).deps() == old(self).deps(),
            !has_id(old(self).slots(), task_id) ==> r == Err::<(), SwarmError>(SwarmError::TaskNotFound),
            forall|i: int| 0 <= i < old(self).slots().len() && #[trigger] old(self).slots()[i].id == task_id ==> {
                let o = old(self).slots()[i];
                &&& (r is Ok) == (o.status == TaskStatus::Assigned && o.assigned_to == Some(agent))
                &&& r is Err ==> r == Err::<(), SwarmError>(SwarmError::TaskNotAssigned)
                &&& (r is Ok && retryable && o.retries < old(self).budget()) ==> final(self).slots()
                    == old(self).slots().update(i, TaskSlot {
                        status: TaskStatus::Ready,
                        assigned_to: None,
                        retries: (o.retries + 1) as u32,
                        ..o
                    })
                &&& (r is Ok && !(retryable && o.retries < old(self).budget())) ==> {
                    let mid = old(self).slots().update(i, TaskSlot {
                        status: TaskStatus::Failed,
                        assigned_to: None,
                        ..o
                    });
                    &&& final(self).slots().len() == mid.len()
                    &&& forall|j: int| 0 <= j < mid.len() ==>
                        #[trigger] final(self).slots()[j] == after_failure(mid[j], final(self).slots(), old(self).deps(), j)
                }
            },
            r is Err ==> final(self).slots() == old(self).slots(),
    {
        let i = match self.index_of(task_id) {
            None => {
                return Err(SwarmError::TaskNotFound);
            },
            Some(i) => i,
        };
        let cur = self.slots[i];
        proof {
            assert forall|x: int| 0 <= x < self.slots@.len() && #[trigger] self.slots@[x].id == task_id implies x == i by {}
        }
        if cur.status != TaskStatus::Assigned || cur.assigned_to != Some(agent) {
            return Err(SwarmError::TaskNotAssigned);
        }
        let ghost q0 = *self;
        let ghost d = self.deps();
        if retryable && cur.retries < self.retry_budget {
            self.slots.set(i, TaskSlot { status: TaskStatus::Ready, assigned_to: None, retries: cur.retries + 1, ..cur });
            proof {
                let s0 = q0.slots@;
                let s1 = self.slots@;
                assert forall|x: int| 0 <= x < s1.len() implies #[trigger] status_consistent(s1, d, x) by {
                    assert(status_consistent(s0, d, x));
                    lemma_marks_agree(s0, s1, d, x);
                }
                self.lemma_wf_kept(q0);
            }
            return Ok(());
        }
        self.slots.set(i, TaskSlot { status: TaskStatus::Failed, assigned_to: None, ..cur });
        let ghost mid = self.slots@;
        self.fail_dependents();
        proof {
            let s0 = q0.slots@;
            let s1 = self.slots@;
            assert forall|k: int| 0 <= k < s1.len() && (#[trigger] s1[k]).status == TaskStatus::Completed implies s0[k].status
                == TaskStatus::Completed by {
                assert(s1[k] == after_failure(mid[k], s1, d, k));
            }
            assert forall|k: int| 0 <= k < s0.len() && (#[trigger] s0[k]).status == TaskStatus::Completed implies s1[k].status
                == TaskStatus::Completed by {
                assert(s1[k] == after_failure(mid[k], s1, d, k));
            }
            assert forall|x: int| 0 <= x < s1.len() implies #[trigger] status_consistent(s1, d, x) by {
                assert(status_consistent(s0, d, x));
                assert(s1[x] == after_failure(mid[x], s1, d, x));
                assert forall|k: int| 0 <= k < d[x].len() implies 0 <= #[trigger] d[x][k] < s0.len() by {
                    assert(d[x][k] < x);
                }
                if x != i && s1[x].status != TaskStatus::Failed {
                    assert(s1[x] == s0[x]);
                    if deps_done(s0, d, x) {
                        lemma_done_grows(s0, s1, d, x);
                    }
                    if deps_done(s1, d, x) {
                        lemma_done_grows(s1, s0, d, x);
                    }
                }
            }
            self.lemma_wf_kept(q0);
        }
        Ok(())
    }

    /// Returns every task in flight with `agent` to `Ready`, so that no task
    /// stays assigned to an agent that has stopped.
    pub fn release_agent(&mut self, agent: AgentId)
        requires
            old(self).wf(),
        ensures
            final(self).wf(),
            final(self).budget() == old(self).budget(),
            final(self).deps() == old(self).deps(),
            final(self).slots().len() == old(self).slots().len(),
            forall|j: int| 0 <= j < old(self).slots().len() ==>
                #[trigger] final(self).slots()[j] == after_release(old(self).slots()[j], agent),
    {
        let ghost q0 = *self;
        let ghost d = self.deps();
        let n = self.slots.len();
        let mut j: usize = 0;
        while j < n
            invariant
                q0.wf(),
                d == q0.deps(),
                self.deps == q0.deps,
                self.tasks == q0.tasks,
                self.retry_budget == q0.retry_budget,
                n == self.slots@.len(),
                n == q0.slots@.len(),
                j <= n,
                forall|x: int| 0 <= x < j ==> #[trigger] self.slots@[x] == after_release(q0.slots@[x], agent),
                forall|x: int| j <= x < n ==> #[trigger] self.slots@[x] == q0.slots@[x],
            decreases n - j,
        {
            let sl = self.slots[j];
            if sl.status == TaskStatus::Assigned && sl.assigned_to == Some(agent) {
                self.slots.set(j, TaskSlot { status: TaskStatus::Ready, assigned_to: None, ..sl });
            }
            j = j + 1;
        }
        proof {
            let s0 = q0.slots@;
            let s1 = self.slots@;
            assert forall|x: int| 0 <= x < s1.len() implies #[trigger] status_consistent(s1, d, x) by {
                assert(status_consistent(s0, d, x));
                lemma_marks_agree(s0, s1, d, x);
            }
            self.lemma_wf_kept(q0);
        }
    }

    /// Number of tasks in flight, that is assigned to an agent.
    pub fn in_flight(&self) -> (r: usize)
        requires
            self.wf(),
        ensures
            r == count_status(self.slots(), TaskStatus::Assigned),
    {
        let mut c: usize = 0;
        let mut j: usize = 0;
        while j < self.slots.len()
            invariant
                j <= self.slots@.len(),
                c == count_status(self.slots@.take(j as int), TaskStatus::Assigned),
                c <= j,
            decreases self.slots@.len() - j,
        {
            proof {
                assert(self.slots@.take(j + 1).drop_last() =~= self.slots@.take(j as int));
            }
            if self.slots[j].status == TaskStatus::Assigned {
                c = c + 1;
            }
            j = j + 1;
        }
        proof {
            assert(self.slots@.take(j as int) =~= self.slots@);
        }
        c
    }

    /// Returns every task in flight to `Ready`, whatever agent holds it.
    pub fn release_all(&mut self)
        requires
            old(self).wf(),
        ensures
            final(self).wf(),
            final(self).budget() == old(self).budget(),
            final(self).deps() == old(self).deps(),
            final(self).slots().len() == old(self).slots().len(),
            forall|j: int| 0 <= j < old(self).slots().len() ==> #[trigger] final(self).slots()[j] == released(old(self).slots()[j]),
            count_status(final(self).slots(), TaskStatus::Assigned) == 0,
    {
        let ghost q0 = *self;
        let ghost d = self.deps();
        let n = self.slots.len();
        let mut j: usize = 0;
        while j < n
            invariant
                q0.wf(),
                d == q0.deps(),
                self.deps == q0.deps,
                self.tasks == q0.tasks,
                self.retry_budget == q0.retry_budget,
                n == self.slots@.len(),
                n == q0.slots@.len(),
                j <= n,
                forall|x: int| 0 <= x < j ==> #[trigger] self.slots@[x] == released(q0.slots@[x]),
                forall|x: int| j <= x < n ==> #[trigger] self.slots@[x] == q0.slots@[x],
            decreases n - j,
        {
            let sl = self.slots[j];
            if sl.status == TaskStatus::Assigned {
                self.slots.set(j, TaskSlot { status: TaskStatus::Ready, assigned_to: None, ..sl });
            }
            j = j + 1;
        }
        proof {
            let s0 = q0.slots@;
            let s1 = self.slots@;
            assert forall|x: int| 0 <= x < s1.len() implies #[trigger] status_consistent(s1, d, x) by {
                assert(status_consistent(s0, d, x));
                lemma_marks_agree(s0, s1, d, x);
            }
            self.lemma_wf_kept(q0);
            assert forall|x: int| 0 <= x < s1.len() implies (#[trigger] s1[x]).status != TaskStatus::Assigned by {
                assert(status_consistent(s0, d, x));
            }
            lemma_count_absent(s1, TaskStatus::Assigned);
        }
    }

    /// Whether every task of the graph is completed.
    pub fn all_completed(&self) -> (r: bool)
        ensures
            r == forall|j: int| 0 <= j < self.slots().len() ==> #[trigger] self.slots()[j].status == TaskStatus::Completed,
    {
        let mut j: usize = 0;
        while j < self.slots.len()
            invariant
                j <= self.slots@.len(),
                forall|x: int| 0 <= x < j ==> #[trigger] self.slots@[x].status == TaskStatus::Completed,
            decreases self.slots@.len() - j,
        {
            if self.slots[j].status != TaskStatus::Completed {
                return false;
            }
            j = j + 1;
        }
        true
    }
}

} // verus!
