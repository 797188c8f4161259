use shabti::agent::{Agent, AgentRegistry, AgentRole};
use shabti::types::Scope;

#[test]
fn create_agent_with_defaults() {
    let agent = Agent::new("researcher", AgentRole::Researcher);
    assert_eq!(agent.name, "researcher");
    assert_eq!(agent.role, AgentRole::Researcher);
    assert_eq!(agent.namespace(), "agent:researcher");
    assert_eq!(agent.memory_scope, Scope::Private);
    assert!(agent.specializations.is_empty());
}

#[test]
fn create_agent_with_builder() {
    let agent = Agent::builder("planner", AgentRole::Planner)
        .memory_scope(Scope::Shared)
        .specialization("task-decomposition")
        .specialization("scheduling")
        .build();

    assert_eq!(agent.name, "planner");
    assert_eq!(agent.role, AgentRole::Planner);
    assert_eq!(agent.memory_scope, Scope::Shared);
    assert_eq!(agent.specializations.len(), 2);
    assert!(
        agent
            .specializations
            .contains(&"task-decomposition".to_string())
    );
}

#[test]
fn agent_id_is_unique() {
    let a = Agent::new("a", AgentRole::Worker);
    let b = Agent::new("b", AgentRole::Worker);
    assert_ne!(a.id, b.id);
}

#[test]
fn registry_register_and_lookup() {
    let mut registry = AgentRegistry::new();
    let agent = Agent::new("analyst", AgentRole::Researcher);
    let id = agent.id;

    registry.register(agent);

    assert!(registry.get(id).is_some());
    assert_eq!(registry.get(id).unwrap().name, "analyst");
}

#[test]
fn registry_lookup_by_name() {
    let mut registry = AgentRegistry::new();
    registry.register(Agent::new("alpha", AgentRole::Worker));
    registry.register(Agent::new("beta", AgentRole::Researcher));

    let found = registry.get_by_name("alpha");
    assert!(found.is_some());
    assert_eq!(found.unwrap().role, AgentRole::Worker);

    assert!(registry.get_by_name("gamma").is_none());
}

#[test]
fn registry_list_all() {
    let mut registry = AgentRegistry::new();
    registry.register(Agent::new("a", AgentRole::Worker));
    registry.register(Agent::new("b", AgentRole::Planner));

    let all = registry.list();
    assert_eq!(all.len(), 2);
}

#[test]
fn registry_find_by_specialization() {
    let mut registry = AgentRegistry::new();
    registry.register(
        Agent::builder("coder", AgentRole::Worker)
            .specialization("rust")
            .specialization("python")
            .build(),
    );
    registry.register(
        Agent::builder("inspector", AgentRole::Worker)
            .specialization("code-review")
            .build(),
    );

    let rust_agents = registry.find_by_specialization("rust");
    assert_eq!(rust_agents.len(), 1);
    assert_eq!(rust_agents[0].name, "coder");

    let empty = registry.find_by_specialization("java");
    assert!(empty.is_empty());
}

#[test]
fn agent_tests_registry_unregister() {
    let mut registry = AgentRegistry::new();
    let agent = Agent::new("temp", AgentRole::Worker);
    let id = agent.id;
    registry.register(agent);

    assert!(registry.get(id).is_some());
    registry.unregister(id);
    assert!(registry.get(id).is_none());
}

#[test]
fn unregister_undoes_register_of_a_new_agent() {
    let mut registry = AgentRegistry::new();
    registry.register(Agent::new("a", AgentRole::Worker));
    let b = Agent::new("b", AgentRole::Planner);
    let b_id = b.id;
    registry.register(b);
    registry.unregister(b_id);
    assert_eq!(registry.list().len(), 1);
    assert_eq!(registry.list()[0].name, "a");
    assert!(registry.get(b_id).is_none());
}

#[test]
fn register_same_id_replaces_in_place() {
    let mut registry = AgentRegistry::new();
    let a = Agent::new("a", AgentRole::Worker);
    let mut a2 = a.clone();
    a2.name = "a2".to_string();
    registry.register(a);
    registry.register(Agent::new("b", AgentRole::Worker));
    registry.register(a2);
    let names: Vec<&str> = registry.list().iter().map(|x| x.name.as_str()).collect();
    assert_eq!(names, vec!["a2", "b"]);
}

#[test]
fn agent_ids_are_version_four_uuids() {
    let a = Agent::new("a", AgentRole::Worker);
    assert_eq!((a.id >> 76) & 0xf, 4);
    assert_eq!((a.id >> 62) & 0x3, 2);
    assert_ne!(a.id, 0);
}
