use vstd::prelude::*;

verus! {

use crate::ids::{is_v4, new_v4};
use crate::types::Scope;

/// What an agent does in a team.
#[derive(Debug, Clone, Copy, PartialEq, Eq, Structural)]
pub enum AgentRole {
    Worker,
    Researcher,
    Planner,
    Reviewer,
}

/// An agent: a random 128-bit id, a name, a role, the scope of its memory and
/// the topics it specialises in.
#[derive(Debug, Clone)]
pub struct Agent {
    pub id: u128,
    pub name: String,
    pub role: AgentRole,
    pub memory_scope: Scope,
    pub specializations: Vec<String>,
}

/// The private namespace of the agent with this name: `agent:<name>`.
pub open spec fn agent_namespace(name: Seq<char>) -> Seq<char> {
    "agent:"@ + name
}

/// Whether the agent lists `spec` among its specializations.
pub open spec fn has_specialization(agent: Agent, spec: Seq<char>) -> bool {
    exists|i: int| 0 <= i < agent.specializations@.len() && agent.specializations@[i]@ == spec
}

impl Agent {
    /// A fresh agent with a random id, private memory and no specializations.
    pub fn new(name: &str, role: AgentRole) -> (a: Agent)
        ensures
            is_v4(a.id),
            a.name@ == name@,
            a.role == role,
            a.memory_scope == Scope::Private,
            a.specializations@.len() == 0,
    {
        Agent {
            id: new_v4(),
            name: name.to_owned(),
            role,
            memory_scope: Scope::Private,
            specializations: Vec::new(),
        }
    }

    pub fn builder(name: &str, role: AgentRole) -> (b: AgentBuilder)
        ensures
            b.name_view() == name@,
            b.role_view() == role,
            b.scope_view() == Scope::Private,
            b.specializations_view().len() == 0,
    {
        AgentBuilder {
            name: name.to_owned(),
            role,
            memory_scope: Scope::Private,
            specializations: Vec::new(),
        }
    }

    /// The agent's private namespace.
    pub fn namespace(&self) -> (ns: String)
        ensures
            ns@ == agent_namespace(self.name@),
    {
        let mut ns = "agent:".to_owned();
        ns.append(self.name.as_str());
        ns
    }
}

/// Builds an agent step by step.
pub struct AgentBuilder {
    name: String,
    role: AgentRole,
    memory_scope: Scope,
    specializations: Vec<String>,
}

impl AgentBuilder {
    pub closed spec fn name_view(&self) -> Seq<char> {
        self.name@
    }

    pub closed spec fn role_view(&self) -> AgentRole {
        self.role
    }

    pub closed spec fn scope_view(&self) -> Scope {
        self.memory_scope
    }

    pub closed spec fn specializations_view(&self) -> Seq<String> {
        self.specializations@
    }

    pub fn memory_scope(self, scope: Scope) -> (b: AgentBuilder)
        ensures
            b.name_view() == self.name_view(),
            b.role_view() == self.role_view(),
            b.scope_view() == scope,
            b.specializations_view() == self.specializations_view(),
    {
        let mut b = self;
        b.memory_scope = scope;
        b
    }

    /// Adds a specialization at the end of the list.
    pub fn specialization(self, spec: &str) -> (b: AgentBuilder)
        ensures
            b.name_view() == self.name_view(),
            b.role_view() == self.role_view(),
            b.scope_view() == self.scope_view(),
            b.specializations_view().len() == self.specializations_view().len() + 1,
            forall|i: int|
                0 <= i < self.specializations_view().len() ==> b.specializations_view()[i]
                    == self.specializations_view()[i],
            b.specializations_view().last()@ == spec@,
    {
        let mut b = self;
        b.specializations.push(spec.to_owned());
        b
    }

    /// The agent, under a fresh random id.
    pub fn build(self) -> (a: Agent)
        ensures
            is_v4(a.id),
            a.name@ == self.name_view(),
            a.role == self.role_view(),
            a.memory_scope == self.scope_view(),
            a.specializations@ == self.specializations_view(),
    {
        Agent {
            id: new_v4(),
            name: self.name,
            role: self.role,
            memory_scope: self.memory_scope,
            specializations: self.specializations,
        }
    }
}

/// Index of the first agent with this id, if any.
pub open spec fn first_with_id(agents: Seq<Agent>, id: u128) -> Option<int> {
    if exists|i: int| 0 <= i < agents.len() && agents[i].id == id {
        Some(
            choose|i: int|
                0 <= i < agents.len() && agents[i].id == id && forall|j: int|
                    0 <= j < i ==> agents[j].id != id,
        )
    } else {
        None
    }
}

/// Index of the first agent with this name, if any.
pub open spec fn first_with_name(agents: Seq<Agent>, name: Seq<char>) -> Option<int> {
    if exists|i: int| 0 <= i < agents.len() && agents[i].name@ == name {
        Some(
            choose|i: int|
                0 <= i < agents.len() && agents[i].name@ == name && forall|j: int|
                    0 <= j < i ==> agents[j].name@ != name,
        )
    } else {
        None
    }
}

/// Keeps the agents whose id differs from `id`.
pub open spec fn id_differs(id: u128) -> spec_fn(Agent) -> bool {
    |a: Agent| a.id != id
}

/// Keeps the agents that specialise in `spec`.
pub open spec fn specialises_in(spec: Seq<char>) -> spec_fn(Agent) -> bool {
    |a: Agent| has_specialization(a, spec)
}

/// The agents after registering `agent`: it replaces the agent with the same
/// id, or joins at the end.
pub open spec fn register_agent(agents: Seq<Agent>, agent: Agent) -> Seq<Agent> {
    match first_with_id(agents, agent.id) {
        Some(i) => agents.update(i, agent),
        None => agents.push(agent),
    }
}

/// No two agents share an id.
pub open spec fn unique_ids(agents: Seq<Agent>) -> bool {
    forall|i: int, j: int| 0 <= i < j < agents.len() ==> (#[trigger] agents[i]).id != (
    #[trigger] agents[j]).id
}

/// The agents known to a team, in registration order, one per id.
#[derive(Debug)]
pub struct AgentRegistry {
    agents: Vec<Agent>,
}

impl AgentRegistry {
    pub closed spec fn agent_list(&self) -> Seq<Agent> {
        self.agents@
    }

    pub fn new() -> (r: AgentRegistry)
        ensures
            r.agent_list() == Seq::<Agent>::empty(),
    {
        AgentRegistry { agents: Vec::new() }
    }

    fn position(&self, id: u128) -> (r: Option<usize>)
        ensures
            match first_with_id(self.agent_list(), id) {
                Some(i) => r is Some && r.unwrap() as int == i,
                None => r is None,
            },
            r matches Some(k) ==> k < self.agent_list().len() && self.agent_list()[k as int].id
                == id,
    {
        let mut i: usize = 0;
        while i < self.agents.len()
            invariant
                i <= self.agents.len(),
                forall|j: int| 0 <= j < i ==> self.agents@[j].id != id,
            decreases self.agents.len() - i,
        {
            if self.agents[i].id == id {
                proof {
                    let k = i as int;
                    assert(0 <= k < self.agent_list().len() && self.agent_list()[k].id == id);
                    let c = first_with_id(self.agent_list(), id).unwrap();
                    if c < k {
                        assert(self.agents@[c].id != id);
                    }
                }
                return Some(i);
            }
            i = i + 1;
        }
        None
    }

    /// Registers an agent; an agent with the same id is replaced in place.
    pub fn register(&mut self, agent: Agent)
        ensures
            final(self).agent_list() == register_agent(old(self).agent_list(), agent),
    {
        match self.position(agent.id) {
            Some(i) => {
                self.agents.set(i, agent);
            },
            None => {
                self.agents.push(agent);
            },
        }
    }

    /// Removes the agent with this id.
    pub fn unregister(&mut self, id: u128)
        ensures
            final(self).agent_list() == old(self).agent_list().filter(id_differs(id)),
    {
        let mut kept: Vec<Agent> = Vec::new();
        let mut rest: Vec<Agent> = Vec::new();
        std::mem::swap(&mut rest, &mut self.agents);
        let ghost all = rest@;
        let ghost mut done: int = 0;
        while rest.len() > 0
            invariant
                0 <= done <= all.len(),
                rest@ == all.subrange(done, all.len() as int),
                kept@ == all.subrange(0, done).filter(id_differs(id)),
            decreases rest.len(),
        {
            let agent = rest.remove(0);
            proof {
                assert(agent == all[done]);
            }
            if agent.id != id {
                kept.push(agent);
            }
            proof {
                reveal(Seq::filter);
                let p = id_differs(id);
                let next = all.subrange(0, done + 1);
                assert(next.drop_last() =~= all.subrange(0, done));
                assert(next.last() == all[done]);
                assert(next.filter(p) == (if p(next.last()) {
                    next.drop_last().filter(p).push(next.last())
                } else {
                    next.drop_last().filter(p)
                }));
                done = done + 1;
                assert(rest@ =~= all.subrange(done, all.len() as int));
            }
        }
        assert(all.subrange(0, all.len() as int) =~= all);
        self.agents = kept;
    }

    /// The agent with this id.
    pub fn get(&self, id: u128) -> (a: Option<&Agent>)
        ensures
            match first_with_id(self.agent_list(), id) {
                Some(i) => a == Some(&self.agent_list()[i]),
                None => a is None,
            },
    {
        match self.position(id) {
            Some(i) => Some(&self.agents[i]),
            None => None,
        }
    }

    /// The first registered agent with this name.
    pub fn get_by_name(&self, name: &str) -> (a: Option<&Agent>)
        ensures
            match first_with_name(self.agent_list(), name@) {
                Some(i) => a == Some(&self.agent_list()[i]),
                None => a is None,
            },
    {
        let key = name.to_owned();
        let mut i: usize = 0;
        while i < self.agents.len()
            invariant
                i <= self.agents.len(),
                key@ == name@,
                forall|j: int| 0 <= j < i ==> self.agents@[j].name@ != name@,
            decreases self.agents.len() - i,
        {
            if self.agents[i].name == key {
                proof {
                    let k = i as int;
                    assert(0 <= k < self.agent_list().len() && self.agent_list()[k].name@
                        == name@);
                    let c = first_with_name(self.agent_list(), name@).unwrap();
                    if c < k {
                        assert(self.agents@[c].name@ != name@);
                    }
                }
                return Some(&self.agents[i]);
            }
            i = i + 1;
        }
        None
    }

    /// Every registered agent, in registration order.
    pub fn list(&self) -> (all: Vec<&Agent>)
        ensures
            all@.len() == self.agent_list().len(),
            forall|i: int| 0 <= i < all@.len() ==> *all@[i] == self.agent_list()[i],
    {
        let mut all: Vec<&Agent> = Vec::new();
        let mut i: usize = 0;
        while i < self.agents.len()
            invariant
                i <= self.agents.len(),
                all@.len() == i,
                forall|k: int| 0 <= k < i ==> *all@[k] == self.agents@[k],
            decreases self.agents.len() - i,
        {
            all.push(&self.agents[i]);
            i = i + 1;
        }
        all
    }

    /// The agents that specialise in `spec`, in registration order.
    pub fn find_by_specialization(&self, spec: &str) -> (found: Vec<&Agent>)
        ensures
            found@.len() == self.agent_list().filter(specialises_in(spec@)).len(),
            forall|i: int|
                0 <= i < found@.len() ==> *found@[i] == self.agent_list().filter(
                    specialises_in(spec@),
                )[i],
    {
        let key = spec.to_owned();
        let mut found: Vec<&Agent> = Vec::new();
        let ghost all = self.agents@;
        let mut i: usize = 0;
        while i < self.agents.len()
            invariant
                i <= self.agents.len(),
                all == self.agents@,
                key@ == spec@,
                found@.len() == all.subrange(0, i as int).filter(specialises_in(spec@)).len(),
                forall|k: int|
                    0 <= k < found@.len() ==> *found@[k] == all.subrange(0, i as int).filter(
                        specialises_in(spec@),
                    )[k],
            decreases self.agents.len() - i,
        {
            let agent = &self.agents[i];
            let has = agent_has_specialization(agent, &key);
            if has {
                found.push(agent);
            }
            proof {
                reveal(Seq::filter);
                let p = specialises_in(spec@);
                let next = all.subrange(0, i + 1);
                assert(next.drop_last() =~= all.subrange(0, i as int));
                assert(next.last() == all[i as int]);
                assert(next.filter(p) == (if p(next.last()) {
                    next.drop_last().filter(p).push(next.last())
                } else {
                    next.drop_last().filter(p)
                }));
            }
            i = i + 1;
        }
        assert(all.subrange(0, all.len() as int) =~= all);
        found
    }
}

/// Whether the agent lists `spec` among its specializations.
pub fn agent_has_specialization(agent: &Agent, spec: &String) -> (b: bool)
    ensures
        b == has_specialization(*agent, spec@),
{
    let mut j: usize = 0;
    while j < agent.specializations.len()
        invariant
            j <= agent.specializations.len(),
            forall|k: int| 0 <= k < j ==> agent.specializations@[k]@ != spec@,
        decreases agent.specializations.len() - j,
    {
        if agent.specializations[j] == *spec {
            return true;
        }
        j = j + 1;
    }
    false
}

/// Registering never leaves two agents with one id, and the registered agent
/// is then the one found under its id.
#[verifier::rlimit(50)]
pub proof fn lemma_register_keeps_ids_unique(agents: Seq<Agent>, agent: Agent)
    requires
        unique_ids(agents),
    ensures
        unique_ids(register_agent(agents, agent)),
        first_with_id(register_agent(agents, agent), agent.id) is Some,
        register_agent(agents, agent)[first_with_id(register_agent(agents, agent), agent.id).unwrap()]
            == agent,
{
    let r = register_agent(agents, agent);
    match first_with_id(agents, agent.id) {
        Some(p) => {
            assert(r == agents.update(p, agent));
            assert forall|i: int, j: int| 0 <= i < j < r.len() implies (#[trigger] r[i]).id != (
            #[trigger] r[j]).id by {
                if i == p {
                    assert(agents[j].id != agents[p].id);
                } else if j == p {
                    assert(agents[i].id != agents[p].id);
                } else {
                    assert(agents[i].id != agents[j].id);
                }
            }
            assert(r[p].id == agent.id);
            let q = first_with_id(r, agent.id).unwrap();
            if q != p {
                if q < p {
                    assert(r[q].id != r[p].id);
                } else {
                    assert(r[p].id != r[q].id);
                }
            }
        },
        None => {
            assert(r == agents.push(agent));
            assert forall|i: int, j: int| 0 <= i < j < r.len() implies (#[trigger] r[i]).id != (
            #[trigger] r[j]).id by {
                if j == agents.len() {
                    assert(r[i] == agents[i]);
                } else {
                    assert(agents[i].id != agents[j].id);
                }
            }
            let n = agents.len() as int;
            assert(r[n].id == agent.id);
            let q = first_with_id(r, agent.id).unwrap();
            if q < n {
                assert(r[q] == agents[q]);
            }
        },
    }
}

/// Once an id is unregistered, no agent answers to it.
pub proof fn lemma_unregister_forgets(agents: Seq<Agent>, id: u128)
    ensures
        first_with_id(agents.filter(id_differs(id)), id) is None,
{
    let f = agents.filter(id_differs(id));
    assert forall|i: int| 0 <= i < f.len() implies f[i].id != id by {
        agents.lemma_filter_pred(id_differs(id), i);
    }
}

proof fn lemma_filter_keeps_all(agents: Seq<Agent>, id: u128)
    requires
        forall|i: int| 0 <= i < agents.len() ==> (#[trigger] agents[i]).id != id,
    ensures
        agents.filter(id_differs(id)) == agents,
    decreases agents.len(),
{
    reveal(Seq::filter);
    if agents.len() > 0 {
        lemma_filter_keeps_all(agents.drop_last(), id);
        assert(agents.drop_last().push(agents.last()) =~= agents);
    }
}

/// Unregistering an id that was free before a registration restores the
/// registry as it was.
pub proof fn lemma_unregister_undoes_register(agents: Seq<Agent>, agent: Agent)
    requires
        first_with_id(agents, agent.id) is None,
    ensures
        register_agent(agents, agent).filter(id_differs(agent.id)) == agents,
{
    reveal(Seq::filter);
    let r = register_agent(agents, agent);
    assert(r == agents.push(agent));
    assert(r.drop_last() =~= agents);
    lemma_filter_keeps_all(agents, agent.id);
}

} // verus!
