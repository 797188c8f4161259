use shabti::agent::{Agent, AgentRole};
use shabti::namespace::{NamespacePolicy, AccessDecision};
use shabti::types::Scope;

#[test]
fn private_scope_allows_owner_access() {
    let agent = Agent::new("alice", AgentRole::Worker);
    let policy = NamespacePolicy::new();

    let decision = policy.check_access(&agent, "agent:alice", Scope::Private);
    assert_eq!(decision, AccessDecision::Allowed);
}

#[test]
fn private_scope_denies_other_agent() {
    let agent = Agent::new("bob", AgentRole::Worker);
    let policy = NamespacePolicy::new();

    let decision = policy.check_access(&agent, "agent:alice", Scope::Private);
    assert_eq!(decision, AccessDecision::Denied);
}

#[test]
fn shared_scope_allows_any_agent() {
    let agent = Agent::new("charlie", AgentRole::Researcher);
    let policy = NamespacePolicy::new();

    let decision = policy.check_access(&agent, "shared:project-x", Scope::Shared);
    assert_eq!(decision, AccessDecision::Allowed);
}

#[test]
fn global_scope_allows_read_for_all() {
    let agent = Agent::new("dave", AgentRole::Worker);
    let policy = NamespacePolicy::new();

    let decision = policy.check_access(&agent, "global:system", Scope::Global);
    assert_eq!(decision, AccessDecision::Allowed);
}

#[test]
fn agent_namespace_derived_from_name() {
    let agent = Agent::new("researcher-1", AgentRole::Researcher);
    assert_eq!(agent.namespace(), "agent:researcher-1");
}

#[test]
fn explicit_share_grants_access() {
    let alice = Agent::new("alice", AgentRole::Worker);
    let bob = Agent::new("bob", AgentRole::Researcher);
    let mut policy = NamespacePolicy::new();

    // Before share: denied
    let decision = policy.check_access(&bob, "agent:alice", Scope::Private);
    assert_eq!(decision, AccessDecision::Denied);

    // Grant explicit share
    policy.grant_access(bob.id, "agent:alice");

    // After share: allowed
    let decision = policy.check_access(&bob, "agent:alice", Scope::Private);
    assert_eq!(decision, AccessDecision::Allowed);

    // Alice still has access to own namespace
    let decision = policy.check_access(&alice, "agent:alice", Scope::Private);
    assert_eq!(decision, AccessDecision::Allowed);
}

#[test]
fn revoke_access_removes_grant() {
    let bob = Agent::new("bob", AgentRole::Worker);
    let mut policy = NamespacePolicy::new();

    policy.grant_access(bob.id, "agent:alice");
    assert_eq!(
        policy.check_access(&bob, "agent:alice", Scope::Private),
        AccessDecision::Allowed
    );

    policy.revoke_access(bob.id, "agent:alice");
    assert_eq!(
        policy.check_access(&bob, "agent:alice", Scope::Private),
        AccessDecision::Denied
    );
}

#[test]
fn list_accessible_namespaces() {
    let agent = Agent::builder("eve", AgentRole::Worker)
        .memory_scope(Scope::Private)
        .build();
    let mut policy = NamespacePolicy::new();

    policy.grant_access(agent.id, "shared:team-a");
    policy.grant_access(agent.id, "shared:team-b");

    let accessible = policy.accessible_namespaces(&agent);
    // Should include own namespace + granted
    assert!(accessible.contains(&agent.namespace()));
    assert!(accessible.contains(&"shared:team-a".to_string()));
    assert!(accessible.contains(&"shared:team-b".to_string()));
}


#[test]
fn grants_list_each_pair_once_and_clone_keeps_them() {
    let mut policy = NamespacePolicy::new();
    policy.grant_access(1, "a");
    policy.grant_access(1, "a");
    policy.grant_access(2, "a");
    assert_eq!(policy.grants(), &[(1u128, "a".to_string()), (2u128, "a".to_string())][..]);
    let copy = policy.clone();
    policy.revoke_access(1, "a");
    assert_eq!(policy.grants().len(), 1);
    assert_eq!(copy.grants().len(), 2);
}
