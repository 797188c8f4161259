use vstd::prelude::*;

verus! {

use crate::agent::{Agent, AgentRegistry, agent_has_specialization, has_specialization};
use crate::error::{ShabtiError, ShabtiResult};
use crate::ids::{is_v4, new_v4, uuid_text, uuid_to_string};

/// Where a task stands.
#[derive(Debug, Clone, Copy, PartialEq, Eq, Structural)]
pub enum TaskStatus {
    Pending,
    Assigned,
    Completed,
    Failed,
}

/// What an agent reported for a task.
#[derive(Debug, Clone)]
pub struct TaskResult {
    pub output: String,
    pub success: bool,
}

impl TaskResult {
    pub fn success(output: &str) -> (r: TaskResult)
        ensures
            r.output@ == output@,
            r.success,
    {
        TaskResult { output: output.to_owned(), success: true }
    }

    pub fn failure(output: &str) -> (r: TaskResult)
        ensures
            r.output@ == output@,
            !r.success,
    {
        TaskResult { output: output.to_owned(), success: false }
    }
}

/// A unit of work, routed to at most one agent.
#[derive(Debug, Clone)]
pub struct Task {
    pub id: u128,
    pub description: String,
    pub detail: String,
    pub required_specs: Vec<String>,
    pub status: TaskStatus,
    pub assigned_to: Option<u128>,
    pub result: Option<TaskResult>,
}

impl Task {
    /// A pending, unassigned task under a fresh random id.
    pub fn new(description: &str, detail: &str) -> (t: Task)
        ensures
            is_v4(t.id),
            t.description@ == description@,
            t.detail@ == detail@,
            t.required_specs@.len() == 0,
            t.status == TaskStatus::Pending,
            t.assigned_to is None,
            t.result is None,
    {
        Task {
            id: new_v4(),
            description: description.to_owned(),
            detail: detail.to_owned(),
            required_specs: Vec::new(),
            status: TaskStatus::Pending,
            assigned_to: None,
            result: None,
        }
    }
}

/// How many of the required specializations (counted with repetition) the
/// agent has.
pub open spec fn match_score(agent: Agent, required: Seq<Seq<char>>) -> nat
    decreases required.len(),
{
    if required.len() == 0 {
        0
    } else {
        match_score(agent, required.drop_last()) + if has_specialization(agent, required.last()) {
            1nat
        } else {
            0nat
        }
    }
}

/// Whether agent `i` is the first with the highest score.
pub open spec fn is_first_best(agents: Seq<Agent>, required: Seq<Seq<char>>, i: int) -> bool {
    &&& 0 <= i < agents.len()
    &&& forall|j: int| 0 <= j < agents.len() ==> match_score(agents[j], required) <= match_score(agents[i], required)
    &&& forall|j: int| 0 <= j < i ==> match_score(agents[j], required) < match_score(agents[i], required)
}

/// The agent a task is routed to: the first of those with the most matching
/// specializations, provided at least one matches.
pub open spec fn route(agents: Seq<Agent>, required: Seq<Seq<char>>) -> Option<int> {
    if exists|i: int| 0 <= i < agents.len() && match_score(agents[i], required) > 0 {
        Some(choose|i: int| is_first_best(agents, required, i))
    } else {
        None
    }
}

/// Index of the first task with this id, if any.
pub open spec fn first_task(tasks: Seq<Task>, id: u128) -> Option<int> {
    if exists|i: int| 0 <= i < tasks.len() && tasks[i].id == id {
        Some(
            choose|i: int|
                0 <= i < tasks.len() && tasks[i].id == id && forall|j: int|
                    0 <= j < i ==> tasks[j].id != id,
        )
    } else {
        None
    }
}

/// The tasks after recording `t`: it replaces a task with the same id, or
/// joins at the end.
pub open spec fn record_task(tasks: Seq<Task>, t: Task) -> Seq<Task> {
    match first_task(tasks, t.id) {
        Some(i) => tasks.update(i, t),
        None => tasks.push(t),
    }
}

pub open spec fn str_views(s: Seq<&str>) -> Seq<Seq<char>> {
    s.map_values(|x: &str| x@)
}

pub open spec fn string_views(s: Seq<String>) -> Seq<Seq<char>> {
    s.map_values(|x: String| x@)
}

/// Keeps the tasks in this state.
pub open spec fn in_status(status: TaskStatus) -> spec_fn(Task) -> bool {
    |t: Task| t.status == status
}

/// Keeps the tasks assigned to this agent.
pub open spec fn assigned_to(agent_id: u128) -> spec_fn(Task) -> bool {
    |t: Task| t.assigned_to == Some(agent_id)
}

/// The message of the error for an unknown task.
pub open spec fn task_not_found_message(id: u128) -> Seq<char> {
    "task "@ + uuid_text(id) + " not found"@
}

/// The task once its result is in: completed or failed as the result says.
pub open spec fn completed(t: Task, result: TaskResult) -> Task {
    Task {
        status: if result.success {
            TaskStatus::Completed
        } else {
            TaskStatus::Failed
        },
        result: Some(result),
        ..t
    }
}

/// How many of `required` the agent has.
fn score_agent(agent: &Agent, required: &[&str]) -> (n: usize)
    ensures
        n == match_score(*agent, str_views(required@)),
        n <= required@.len(),
{
    let mut n: usize = 0;
    let mut k: usize = 0;
    while k < required.len()
        invariant
            k <= required@.len(),
            n <= k,
            n == match_score(*agent, str_views(required@).subrange(0, k as int)),
        decreases required@.len() - k,
    {
        let spec = required[k].to_owned();
        let has = agent_has_specialization(agent, &spec);
        proof {
            let next = str_views(required@).subrange(0, k + 1);
            assert(next.drop_last() =~= str_views(required@).subrange(0, k as int));
            assert(next.last() == required@[k as int]@);
        }
        if has {
            n = n + 1;
        }
        k = k + 1;
    }
    assert(str_views(required@).subrange(0, required@.len() as int) =~= str_views(required@));
    n
}

/// The first agent with the highest score, if its score is positive.
fn best_agent(agents: &Vec<&Agent>, required: &[&str]) -> (r: Option<usize>)
    ensures
        match r {
            Some(b) => b < agents@.len() && match_score(*agents@[b as int], str_views(required@)) > 0
                && forall|j: int|
                0 <= j < agents@.len() ==> match_score(*agents@[j], str_views(required@))
                    <= match_score(*agents@[b as int], str_views(required@)) && (j < b ==> match_score(
                    *agents@[j],
                    str_views(required@),
                ) < match_score(*agents@[b as int], str_views(required@))),
            None => forall|j: int|
                0 <= j < agents@.len() ==> match_score(*agents@[j], str_views(required@)) == 0,
        },
{
    let ghost req = str_views(required@);
    let mut best: Option<usize> = None;
    let mut best_score: usize = 0;
    let mut i: usize = 0;
    while i < agents.len()
        invariant
            i <= agents@.len(),
            req == str_views(required@),
            match best {
                Some(b) => b < i && best_score > 0 && best_score == match_score(*agents@[b as int], req)
                    && forall|j: int|
                    0 <= j < i ==> match_score(*agents@[j], req) <= best_score && (j < b
                        ==> match_score(*agents@[j], req) < best_score),
                None => best_score == 0 && forall|j: int| 0 <= j < i ==> match_score(*agents@[j], req) == 0,
            },
        decreases agents@.len() - i,
    {
        let score = score_agent(agents[i], required);
        if score > best_score {
            best_score = score;
            best = Some(i);
        }
        i = i + 1;
    }
    best
}

/// Routes tasks to the registered agents and tracks them to completion.
pub struct Orchestrator {
    registry: AgentRegistry,
    tasks: Vec<Task>,
}

impl Orchestrator {
    pub closed spec fn agent_list(&self) -> Seq<Agent> {
        self.registry.agent_list()
    }

    pub closed spec fn task_list(&self) -> Seq<Task> {
        self.tasks@
    }

    pub fn new(registry: AgentRegistry) -> (o: Orchestrator)
        ensures
            o.agent_list() == registry.agent_list(),
            o.task_list() == Seq::<Task>::empty(),
    {
        Orchestrator { registry, tasks: Vec::new() }
    }

    fn position(&self, id: u128) -> (r: Option<usize>)
        ensures
            match first_task(self.task_list(), id) {
                Some(i) => r is Some && r.unwrap() as int == i,
                None => r is None,
            },
            r matches Some(k) ==> k < self.task_list().len() && self.task_list()[k as int].id == id,
    {
        let mut i: usize = 0;
        while i < self.tasks.len()
            invariant
                i <= self.tasks.len(),
                forall|j: int| 0 <= j < i ==> self.tasks@[j].id != id,
            decreases self.tasks.len() - i,
        {
            if self.tasks[i].id == id {
                proof {
                    let k = i as int;
                    assert(0 <= k < self.task_list().len() && self.task_list()[k].id == id);
                    let c = first_task(self.task_list(), id).unwrap();
                    if c < k {
                        assert(self.tasks@[c].id != id);
                    }
                }
                return Some(i);
            }
            i = i + 1;
        }
        None
    }

    /// Files a task under a fresh random id and routes it to the first agent
    /// with the most matching specializations; with no match it stays pending.
    pub fn submit(&mut self, description: &str, detail: &str, required_specs: &[&str]) -> (id: u128)
        ensures
            final(self).agent_list() == old(self).agent_list(),
            exists|t: Task|
                {
                    &&& t.id == id
                    &&& is_v4(t.id)
                    &&& t.description@ == description@
                    &&& t.detail@ == detail@
                    &&& string_views(t.required_specs@) == str_views(required_specs@)
                    &&& t.result is None
                    &&& match route(old(self).agent_list(), str_views(required_specs@)) {
                        Some(b) => t.status == TaskStatus::Assigned && t.assigned_to == Some(
                            old(self).agent_list()[b].id,
                        ),
                        None => t.status == TaskStatus::Pending && t.assigned_to is None,
                    }
                    &&& final(self).task_list() == record_task(old(self).task_list(), t)
                },
    {
        let mut task = Task::new(description, detail);
        let mut specs: Vec<String> = Vec::new();
        let mut k: usize = 0;
        while k < required_specs.len()
            invariant
                k <= required_specs@.len(),
                specs@.len() == k,
                string_views(specs@) == str_views(required_specs@).subrange(0, k as int),
            decreases required_specs@.len() - k,
        {
            let ghost before = specs@;
            let s = required_specs[k].to_owned();
            specs.push(s);
            proof {
                assert(specs@[k as int]@ == required_specs@[k as int]@);
                assert forall|j: int| 0 <= j < k + 1 implies string_views(specs@)[j] == str_views(
                    required_specs@,
                ).subrange(0, k + 1)[j] by {
                    if j < k {
                        assert(specs@[j] == before[j]);
                        assert(string_views(before)[j] == str_views(required_specs@).subrange(
                            0,
                            k as int,
                        )[j]);
                    }
                }
                assert(string_views(specs@) =~= str_views(required_specs@).subrange(0, k + 1));
            }
            k = k + 1;
        }
        assert(str_views(required_specs@).subrange(0, required_specs@.len() as int) =~= str_views(
            required_specs@,
        ));
        task.required_specs = specs;
        let agents = self.registry.list();
        let ghost req = str_views(required_specs@);
        let ghost all = self.registry.agent_list();
        match best_agent(&agents, required_specs) {
            Some(b) => {
                task.status = TaskStatus::Assigned;
                task.assigned_to = Some(agents[b].id);
                proof {
                    assert(is_first_best(all, req, b as int));
                    assert(match_score(all[b as int], req) > 0);
                    let c = choose|i: int| is_first_best(all, req, i);
                    assert(is_first_best(all, req, c));
                    if c < b {
                        assert(match_score(all[c], req) < match_score(all[b as int], req));
                    } else if c > b {
                        assert(match_score(all[b as int], req) < match_score(all[c], req));
                    }
                    assert(route(all, req) == Some(b as int));
                }
            },
            None => {
                assert(route(all, req) is None);
            },
        }
        let id = task.id;
        let ghost t = task;
        match self.position(id) {
            Some(i) => {
                self.tasks.set(i, task);
            },
            None => {
                self.tasks.push(task);
            },
        }
        assert(self.task_list() == record_task(old(self).task_list(), t));
        id
    }

    /// The task with this id.
    pub fn get_task(&self, id: u128) -> (t: Option<&Task>)
        ensures
            match first_task(self.task_list(), id) {
                Some(i) => t == Some(&self.task_list()[i]),
                None => t is None,
            },
    {
        match self.position(id) {
            Some(i) => Some(&self.tasks[i]),
            None => None,
        }
    }

    /// Records the result of a task: completed when it succeeded, failed
    /// otherwise. An unknown task is an error and changes nothing.
    pub fn complete_task(&mut self, id: u128, result: TaskResult) -> (r: ShabtiResult<()>)
        ensures
            final(self).agent_list() == old(self).agent_list(),
            match first_task(old(self).task_list(), id) {
                Some(i) => r is Ok && final(self).task_list() == old(self).task_list().update(
                    i,
                    completed(old(self).task_list()[i], result),
                ),
                None => (r matches Err(ShabtiError::Storage(m)) && m@ == task_not_found_message(id))
                    && final(self).task_list() == old(self).task_list(),
            },
    {
        match self.position(id) {
            None => {
                let mut m = "task ".to_owned();
                let id_text = uuid_to_string(id);
                m.append(id_text.as_str());
                m.append(" not found");
                Err(ShabtiError::Storage(m))
            },
            Some(i) => {
                let ghost before = self.tasks@[i as int];
                let status = if result.success {
                    TaskStatus::Completed
                } else {
                    TaskStatus::Failed
                };
                self.tasks[i].status = status;
                self.tasks[i].result = Some(result);
                proof {
                    assert(self.tasks@ =~= old(self).tasks@.update(i as int, completed(before, result)));
                }
                Ok(())
            },
        }
    }

    /// The tasks in this state, in filing order.
    pub fn tasks_by_status(&self, status: TaskStatus) -> (found: Vec<&Task>)
        ensures
            found@.len() == self.task_list().filter(in_status(status)).len(),
            forall|i: int|
                0 <= i < found@.len() ==> *found@[i] == self.task_list().filter(in_status(status))[i],
    {
        let mut found: Vec<&Task> = Vec::new();
        let ghost all = self.tasks@;
        let mut i: usize = 0;
        while i < self.tasks.len()
            invariant
                i <= self.tasks.len(),
                all == self.tasks@,
                found@.len() == all.subrange(0, i as int).filter(in_status(status)).len(),
                forall|k: int|
                    0 <= k < found@.len() ==> *found@[k] == all.subrange(0, i as int).filter(
                        in_status(status),
                    )[k],
            decreases self.tasks.len() - i,
        {
            let t = &self.tasks[i];
            if t.status == status {
                found.push(t);
            }
            proof {
                reveal(Seq::filter);
                let p = in_status(status);
                let next = all.subrange(0, i + 1);
                assert(next.drop_last() =~= all.subrange(0, i as int));
                assert(next.last() == all[i as int]);
                assert(next.filter(p) == (if p(next.last()) {
                    next.drop_last().filter(p).push(next.last())
                } else {
                    next.drop_last().filter(p)
                }));
            }
            i = i + 1;
        }
        assert(all.subrange(0, all.len() as int) =~= all);
        found
    }

    /// The tasks assigned to this agent, in filing order.
    pub fn tasks_for_agent(&self, agent_id: u128) -> (found: Vec<&Task>)
        ensures
            found@.len() == self.task_list().filter(assigned_to(agent_id)).len(),
            forall|i: int|
                0 <= i < found@.len() ==> *found@[i] == self.task_list().filter(
                    assigned_to(agent_id),
                )[i],
    {
        let mut found: Vec<&Task> = Vec::new();
        let ghost all = self.tasks@;
        let mut i: usize = 0;
        while i < self.tasks.len()
            invariant
                i <= self.tasks.len(),
                all == self.tasks@,
                found@.len() == all.subrange(0, i as int).filter(assigned_to(agent_id)).len(),
                forall|k: int|
                    0 <= k < found@.len() ==> *found@[k] == all.subrange(0, i as int).filter(
                        assigned_to(agent_id),
                    )[k],
            decreases self.tasks.len() - i,
        {
            let t = &self.tasks[i];
            let mine = match t.assigned_to {
                Some(a) => a == agent_id,
                None => false,
            };
            if mine {
                found.push(t);
            }
            proof {
                reveal(Seq::filter);
                let p = assigned_to(agent_id);
                let next = all.subrange(0, i + 1);
                assert(next.drop_last() =~= all.subrange(0, i as int));
                assert(next.last() == all[i as int]);
                assert(next.filter(p) == (if p(next.last()) {
                    next.drop_last().filter(p).push(next.last())
                } else {
                    next.drop_last().filter(p)
                }));
            }
            i = i + 1;
        }
        assert(all.subrange(0, all.len() as int) =~= all);
        found
    }
}

/// The first agent with the highest positive score among the first `n`.
proof fn best_prefix(agents: Seq<Agent>, required: Seq<Seq<char>>, n: int) -> (r: Option<int>)
    requires
        0 <= n <= agents.len(),
    ensures
        match r {
            Some(b) => 0 <= b < n && match_score(agents[b], required) > 0 && forall|j: int|
                0 <= j < n ==> match_score(agents[j], required) <= match_score(agents[b], required)
                    && (j < b ==> match_score(agents[j], required) < match_score(agents[b], required)),
            None => forall|j: int| 0 <= j < n ==> match_score(agents[j], required) == 0,
        },
    decreases n,
{
    if n == 0 {
        None
    } else {
        let s = match_score(agents[n - 1], required);
        match best_prefix(agents, required, n - 1) {
            Some(b) => if s > match_score(agents[b], required) {
                Some(n - 1)
            } else {
                Some(b)
            },
            None => if s > 0 {
                Some(n - 1)
            } else {
                None
            },
        }
    }
}

/// A task goes to an agent with a positive score that no agent beats, and that
/// every earlier agent scores below; it stays unassigned only when no agent
/// has any of the required specializations.
pub proof fn lemma_route_picks_best(agents: Seq<Agent>, required: Seq<Seq<char>>)
    ensures
        match route(agents, required) {
            Some(b) => is_first_best(agents, required, b) && match_score(agents[b], required) > 0,
            None => forall|j: int| 0 <= j < agents.len() ==> match_score(agents[j], required) == 0,
        },
{
    match best_prefix(agents, required, agents.len() as int) {
        Some(b) => {
            assert(is_first_best(agents, required, b));
            let c = choose|i: int| is_first_best(agents, required, i);
            assert(is_first_best(agents, required, c));
            if c < b {
                assert(match_score(agents[c], required) < match_score(agents[b], required));
            } else if c > b {
                assert(match_score(agents[b], required) < match_score(agents[c], required));
            }
            assert(route(agents, required) == Some(b));
        },
        None => {
            assert(route(agents, required) is None);
        },
    }
}

} // verus!
