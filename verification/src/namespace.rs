use vstd::prelude::*;

verus! {

use crate::agent::{Agent, agent_namespace};
use crate::types::Scope;

/// Whether an agent may read a namespace.
#[derive(Debug, Clone, Copy, PartialEq, Eq, Structural)]
pub enum AccessDecision {
    Allowed,
    Denied,
}

/// The decision for `agent` reading `namespace` under `scope`, given the
/// explicit grants as (agent id, namespace) pairs: shared and global memory is
/// open to all; private memory to its owner and to agents granted access.
pub open spec fn access_decision(
    grants: Set<(u128, Seq<char>)>,
    agent: Agent,
    namespace: Seq<char>,
    scope: Scope,
) -> AccessDecision {
    match scope {
        Scope::Global | Scope::Shared => AccessDecision::Allowed,
        Scope::Private => if agent_namespace(agent.name@) == namespace || grants.contains(
            (agent.id, namespace),
        ) {
            AccessDecision::Allowed
        } else {
            AccessDecision::Denied
        },
    }
}

/// The set of (agent id, namespace) pairs listed.
pub open spec fn grant_set(grants: Seq<(u128, String)>) -> Set<(u128, Seq<char>)> {
    Set::new(
        |p: (u128, Seq<char>)|
            exists|i: int| 0 <= i < grants.len() && grants[i].0 == p.0 && grants[i].1@ == p.1,
    )
}

/// No pair is listed twice.
pub open spec fn distinct_grants(grants: Seq<(u128, String)>) -> bool {
    forall|i: int, j: int|
        0 <= i < j < grants.len() ==> !((#[trigger] grants[i]).0 == (#[trigger] grants[j]).0
            && grants[i].1@ == grants[j].1@)
}

/// The namespaces granted to `id`, in the order the grants were made.
pub open spec fn granted_to(grants: Seq<(u128, String)>, id: u128) -> Seq<Seq<char>>
    decreases grants.len(),
{
    if grants.len() == 0 {
        Seq::empty()
    } else {
        let rest = granted_to(grants.drop_last(), id);
        if grants.last().0 == id {
            rest.push(grants.last().1@)
        } else {
            rest
        }
    }
}

proof fn lemma_granted_to(grants: Seq<(u128, String)>, id: u128)
    ensures
        forall|ns: Seq<char>|
            #![trigger granted_to(grants, id).contains(ns)]
            granted_to(grants, id).contains(ns) <==> grant_set(grants).contains((id, ns)),
        distinct_grants(grants) ==> granted_to(grants, id).no_duplicates(),
    decreases grants.len(),
{
    if grants.len() > 0 {
        let init = grants.drop_last();
        lemma_granted_to(init, id);
        let rest = granted_to(init, id);
        let last = grants.last();
        assert forall|ns: Seq<char>| #![trigger granted_to(grants, id).contains(ns)]
            granted_to(grants, id).contains(ns) <==> grant_set(grants).contains((id, ns)) by {
            if grant_set(grants).contains((id, ns)) {
                let k = choose|k: int| 0 <= k < grants.len() && grants[k].0 == id && grants[k].1@ == ns;
                if k < init.len() {
                    assert(init[k] == grants[k]);
                    assert(grant_set(init).contains((id, ns)));
                    assert(rest.contains(ns));
                    if last.0 == id {
                        assert(granted_to(grants, id) == rest.push(last.1@));
                        let j = choose|j: int| 0 <= j < rest.len() && rest[j] == ns;
                        assert(granted_to(grants, id)[j] == ns);
                    }
                } else {
                    assert(granted_to(grants, id) == rest.push(last.1@));
                    assert(granted_to(grants, id)[rest.len() as int] == ns);
                }
            }
            if granted_to(grants, id).contains(ns) {
                if last.0 == id && ns == last.1@ {
                    assert(grants[grants.len() - 1] == last);
                } else {
                    if last.0 == id {
                        let j = choose|j: int| 0 <= j < granted_to(grants, id).len() && granted_to(grants, id)[j] == ns;
                        assert(j < rest.len());
                        assert(rest[j] == ns);
                    }
                    assert(rest.contains(ns));
                    let k = choose|k: int| 0 <= k < init.len() && init[k].0 == id && init[k].1@ == ns;
                    assert(grants[k] == init[k]);
                }
            }
        }
        if distinct_grants(grants) {
            assert(distinct_grants(init)) by {
                assert forall|i: int, j: int| 0 <= i < j < init.len() implies !((#[trigger] init[i]).0 == (#[trigger] init[j]).0 && init[i].1@ == init[j].1@) by {
                    assert(init[i] == grants[i]);
                    assert(init[j] == grants[j]);
                }
            }
            if last.0 == id {
                assert(!rest.contains(last.1@)) by {
                    if rest.contains(last.1@) {
                        assert(grant_set(init).contains((id, last.1@)));
                        let k = choose|k: int| 0 <= k < init.len() && init[k].0 == id && init[k].1@ == last.1@;
                        assert(grants[k] == init[k]);
                        assert(!(grants[k].0 == grants[grants.len() - 1].0 && grants[k].1@ == grants[grants.len() - 1].1@));
                    }
                }
                let g = rest.push(last.1@);
                assert forall|i: int, j: int| 0 <= i < g.len() && 0 <= j < g.len() && i != j implies g[i] != g[j] by {
                    if i < rest.len() && j < rest.len() {
                    } else if i < rest.len() {
                        assert(rest.contains(g[i]));
                    } else {
                        assert(rest.contains(g[j]));
                    }
                }
            }
        }
    }
}

/// Access rules between agents' namespaces, with explicit grants.
#[derive(Debug)]
pub struct NamespacePolicy {
    grants: Vec<(u128, String)>,
}

impl NamespacePolicy {
    #[verifier::type_invariant]
    spec fn wf(self) -> bool {
        distinct_grants(self.grants@)
    }

    /// The explicit grants, as (agent id, namespace) pairs.
    pub closed spec fn granted(&self) -> Set<(u128, Seq<char>)> {
        grant_set(self.grants@)
    }

    pub fn new() -> (p: NamespacePolicy)
        ensures
            p.granted() == Set::<(u128, Seq<char>)>::empty(),
    {
        let p = NamespacePolicy { grants: Vec::new() };
        assert(grant_set(p.grants@) =~= Set::<(u128, Seq<char>)>::empty());
        p
    }

    fn position(&self, agent_id: u128, namespace: &String) -> (r: Option<usize>)
        ensures
            match r {
                Some(i) => i < self.grants@.len() && self.grants@[i as int].0 == agent_id
                    && self.grants@[i as int].1@ == namespace@,
                None => !self.granted().contains((agent_id, namespace@)),
            },
    {
        let mut i: usize = 0;
        while i < self.grants.len()
            invariant
                i <= self.grants.len(),
                forall|k: int|
                    0 <= k < i ==> !(self.grants@[k].0 == agent_id && self.grants@[k].1@
                        == namespace@),
            decreases self.grants.len() - i,
        {
            if self.grants[i].0 == agent_id && self.grants[i].1 == *namespace {
                return Some(i);
            }
            i = i + 1;
        }
        None
    }

    /// The grants, each (agent id, namespace) pair once, in the order they
    /// were made.
    pub fn grants(&self) -> (g: &[(u128, String)])
        ensures
            grant_set(g@) == self.granted(),
            distinct_grants(g@),
    {
        proof {
            use_type_invariant(self);
        }
        self.grants.as_slice()
    }

    pub fn check_access(&self, agent: &Agent, namespace: &str, scope: Scope) -> (d: AccessDecision)
        ensures
            d == access_decision(self.granted(), *agent, namespace@, scope),
    {
        match scope {
            Scope::Global | Scope::Shared => AccessDecision::Allowed,
            Scope::Private => {
                let own = agent.namespace();
                let key = namespace.to_owned();
                if own == key {
                    return AccessDecision::Allowed;
                }
                match self.position(agent.id, &key) {
                    Some(i) => AccessDecision::Allowed,
                    None => AccessDecision::Denied,
                }
            },
        }
    }

    pub fn grant_access(&mut self, agent_id: u128, namespace: &str)
        ensures
            final(self).granted() == old(self).granted().insert((agent_id, namespace@)),
    {
        proof {
            use_type_invariant(&*self);
        }
        let key = namespace.to_owned();
        match self.position(agent_id, &key) {
            Some(i) => {
                assert(self.granted() =~= self.granted().insert((agent_id, namespace@)));
            },
            None => {
                let ghost old_g = self.grants@;
                let mut grants: Vec<(u128, String)> = Vec::new();
                std::mem::swap(&mut grants, &mut self.grants);
                grants.push((agent_id, key));
                proof {
                    let ng = grants@;
                    assert forall|i: int, j: int| 0 <= i < j < ng.len() implies !((
                    #[trigger] ng[i]).0 == (#[trigger] ng[j]).0 && ng[i].1@ == ng[j].1@) by {
                        assert(ng[i] == old_g[i]);
                        if j < old_g.len() {
                            assert(ng[j] == old_g[j]);
                        }
                    }
                    assert forall|p: (u128, Seq<char>)|
                        #![auto]
                        grant_set(ng).contains(p) == grant_set(old_g).insert(
                            (agent_id, namespace@),
                        ).contains(p) by {
                        if grant_set(old_g).contains(p) {
                            let k = choose|k: int|
                                0 <= k < old_g.len() && old_g[k].0 == p.0 && old_g[k].1@ == p.1;
                            assert(ng[k] == old_g[k]);
                        }
                        if grant_set(ng).contains(p) && p != (agent_id, namespace@) {
                            let k = choose|k: int|
                                0 <= k < ng.len() && ng[k].0 == p.0 && ng[k].1@ == p.1;
                            if k == old_g.len() {
                                assert(ng[k].0 == agent_id && ng[k].1@ == namespace@);
                                assert(p == (agent_id, namespace@));
                            } else {
                                assert(ng[k] == old_g[k]);
                            }
                        }
                        if p == (agent_id, namespace@) {
                            assert(ng[old_g.len() as int].1@ == namespace@);
                        }
                    }
                    assert(grant_set(ng) =~= grant_set(old_g).insert((agent_id, namespace@)));
                }
                self.grants = grants;
            },
        }
    }

    pub fn revoke_access(&mut self, agent_id: u128, namespace: &str)
        ensures
            final(self).granted() == old(self).granted().remove((agent_id, namespace@)),
    {
        proof {
            use_type_invariant(&*self);
        }
        let key = namespace.to_owned();
        match self.position(agent_id, &key) {
            Some(i) => {
                let ghost old_g = self.grants@;
                let mut grants: Vec<(u128, String)> = Vec::new();
                std::mem::swap(&mut grants, &mut self.grants);
                grants.remove(i);
                proof {
                    let ng = grants@;
                    assert forall|a: int, b: int| 0 <= a < b < ng.len() implies !((
                    #[trigger] ng[a]).0 == (#[trigger] ng[b]).0 && ng[a].1@ == ng[b].1@) by {
                        let oa = if a < i {
                            a
                        } else {
                            a + 1
                        };
                        let ob = if b < i {
                            b
                        } else {
                            b + 1
                        };
                        assert(ng[a] == old_g[oa]);
                        assert(ng[b] == old_g[ob]);
                        assert(oa < ob);
                    }
                    assert forall|p: (u128, Seq<char>)|
                        #![auto]
                        grant_set(ng).contains(p) == grant_set(old_g).remove(
                            (agent_id, namespace@),
                        ).contains(p) by {
                        if grant_set(ng).contains(p) {
                            let k = choose|k: int|
                                0 <= k < ng.len() && ng[k].0 == p.0 && ng[k].1@ == p.1;
                            let ok = if k < i {
                                k
                            } else {
                                k + 1
                            };
                            assert(ng[k] == old_g[ok]);
                            if p == (agent_id, namespace@) {
                                if ok < i {
                                    assert(!(old_g[ok].0 == old_g[i as int].0 && old_g[ok].1@
                                        == old_g[i as int].1@));
                                } else {
                                    assert(!(old_g[i as int].0 == old_g[ok].0 && old_g[i as int].1@
                                        == old_g[ok].1@));
                                }
                            }
                        }
                        if grant_set(old_g).contains(p) && p != (agent_id, namespace@) {
                            let k = choose|k: int|
                                0 <= k < old_g.len() && old_g[k].0 == p.0 && old_g[k].1@ == p.1;
                            assert(k != i);
                            if k < i {
                                assert(ng[k] == old_g[k]);
                            } else {
                                assert(ng[k - 1] == old_g[k]);
                            }
                        }
                    }
                    assert(grant_set(ng) =~= grant_set(old_g).remove((agent_id, namespace@)));
                }
                self.grants = grants;
            },
            None => {
                assert(self.granted() =~= self.granted().remove((agent_id, namespace@)));
            },
        }
    }

    /// The agent's own namespace first, then each namespace granted to it,
    /// once each, in the order the grants were made.
    pub fn accessible_namespaces(&self, agent: &Agent) -> (r: Vec<String>)
        ensures
            r@.len() >= 1,
            r@[0]@ == agent_namespace(agent.name@),
            forall|i: int| 1 <= i < r@.len() ==> self.granted().contains((agent.id, #[trigger] r@[i]@)),
            forall|ns: Seq<char>|
                self.granted().contains((agent.id, ns)) ==> exists|i: int|
                    1 <= i < r@.len() && #[trigger] r@[i]@ == ns,
            forall|i: int, j: int| 1 <= i < j < r@.len() ==> (#[trigger] r@[i])@ != (#[trigger] r@[j])@,
    {
        proof {
            use_type_invariant(self);
        }
        let mut r: Vec<String> = Vec::new();
        r.push(agent.namespace());
        let mut k: usize = 0;
        while k < self.grants.len()
            invariant
                k <= self.grants.len(),
                r@.len() >= 1,
                r@[0]@ == agent_namespace(agent.name@),
                r@.subrange(1, r@.len() as int).map_values(|x: String| x@) == granted_to(
                    self.grants@.subrange(0, k as int),
                    agent.id,
                ),
            decreases self.grants.len() - k,
        {
            let ghost before = r@;
            if self.grants[k].0 == agent.id {
                let ns = self.grants[k].1.clone();
                r.push(ns);
            }
            proof {
                let next = self.grants@.subrange(0, k + 1);
                assert(next.drop_last() =~= self.grants@.subrange(0, k as int));
                assert(next.last() == self.grants@[k as int]);
                assert(r@.subrange(1, r@.len() as int).map_values(|x: String| x@) =~= granted_to(
                    next,
                    agent.id,
                ));
            }
            k = k + 1;
        }
        proof {
            assert(self.grants@.subrange(0, self.grants@.len() as int) =~= self.grants@);
            lemma_granted_to(self.grants@, agent.id);
            let tail = r@.subrange(1, r@.len() as int).map_values(|x: String| x@);
            assert forall|i: int| 1 <= i < r@.len() implies self.granted().contains(
                (agent.id, #[trigger] r@[i]@),
            ) by {
                assert(tail[i - 1] == r@[i]@);
                assert(tail.contains(r@[i]@));
            }
            assert forall|ns: Seq<char>| self.granted().contains((agent.id, ns)) implies exists|i: int|
                1 <= i < r@.len() && #[trigger] r@[i]@ == ns by {
                assert(tail.contains(ns));
                let j = choose|j: int| 0 <= j < tail.len() && tail[j] == ns;
                assert(r@[j + 1]@ == ns);
            }
            assert forall|i: int, j: int| 1 <= i < j < r@.len() implies (#[trigger] r@[i])@ != (
            #[trigger] r@[j])@ by {
                assert(tail[i - 1] == r@[i]@);
                assert(tail[j - 1] == r@[j]@);
            }
        }
        r
    }
}

impl Clone for NamespacePolicy {
    fn clone(&self) -> (c: NamespacePolicy)
        ensures
            c.granted() == self.granted(),
    {
        proof {
            use_type_invariant(self);
        }
        let mut grants: Vec<(u128, String)> = Vec::new();
        let mut i: usize = 0;
        while i < self.grants.len()
            invariant
                i <= self.grants.len(),
                grants@.len() == i,
                forall|k: int|
                    0 <= k < i ==> (#[trigger] grants@[k]).0 == self.grants@[k].0 && grants@[k].1@
                        == self.grants@[k].1@,
            decreases self.grants.len() - i,
        {
            let (id, ns) = (self.grants[i].0, self.grants[i].1.clone());
            grants.push((id, ns));
            i = i + 1;
        }
        proof {
            assert forall|a: int, b: int| 0 <= a < b < grants@.len() implies !((#[trigger] grants@[a]).0
                == (#[trigger] grants@[b]).0 && grants@[a].1@ == grants@[b].1@) by {
                assert(!(self.grants@[a].0 == self.grants@[b].0 && self.grants@[a].1@
                    == self.grants@[b].1@));
            }
            assert forall|p: (u128, Seq<char>)| #![auto] grant_set(grants@).contains(p) == grant_set(
                self.grants@,
            ).contains(p) by {
                if grant_set(grants@).contains(p) {
                    let k = choose|k: int| 0 <= k < grants@.len() && grants@[k].0 == p.0 && grants@[k].1@ == p.1;
                    assert(self.grants@[k].0 == p.0 && self.grants@[k].1@ == p.1);
                }
                if grant_set(self.grants@).contains(p) {
                    let k = choose|k: int|
                        0 <= k < self.grants@.len() && self.grants@[k].0 == p.0 && self.grants@[k].1@ == p.1;
                    assert(grants@[k].0 == p.0 && grants@[k].1@ == p.1);
                }
            }
            assert(grant_set(grants@) =~= grant_set(self.grants@));
        }
        NamespacePolicy { grants }
    }
}

impl Default for NamespacePolicy {
    fn default() -> (p: NamespacePolicy)
        ensures
            p.granted() == Set::<(u128, Seq<char>)>::empty(),
    {
        NamespacePolicy::new()
    }
}

/// An agent always reads its own private namespace.
pub proof fn lemma_owner_allowed(grants: Set<(u128, Seq<char>)>, agent: Agent, scope: Scope)
    ensures
        access_decision(grants, agent, agent_namespace(agent.name@), scope)
            == AccessDecision::Allowed,
{
}

/// A grant opens the namespace to the grantee, whatever else was granted.
pub proof fn lemma_grant_allows(
    grants: Set<(u128, Seq<char>)>,
    agent: Agent,
    namespace: Seq<char>,
    scope: Scope,
)
    ensures
        access_decision(grants.insert((agent.id, namespace)), agent, namespace, scope)
            == AccessDecision::Allowed,
{
}

/// Revoking a grant closes a private namespace the agent does not own.
pub proof fn lemma_revoke_denies(grants: Set<(u128, Seq<char>)>, agent: Agent, namespace: Seq<char>)
    requires
        agent_namespace(agent.name@) != namespace,
    ensures
        access_decision(grants.remove((agent.id, namespace)), agent, namespace, Scope::Private)
            == AccessDecision::Denied,
{
}

/// Revoking a fresh grant restores the grants as they were.
pub proof fn lemma_revoke_undoes_grant(grants: Set<(u128, Seq<char>)>, agent_id: u128, namespace: Seq<char>)
    requires
        !grants.contains((agent_id, namespace)),
    ensures
        grants.insert((agent_id, namespace)).remove((agent_id, namespace)) == grants,
{
    assert(grants.insert((agent_id, namespace)).remove((agent_id, namespace)) =~= grants);
}

} // verus!
