use shabti::a2a::{A2AMessage, A2ARegistry, AgentCard, MessageType};
use serde_json::Value;


#[test]
fn create_agent_card() {
    let card = AgentCard::new(
        "shabti-memory",
        "Memory management agent",
        "https://localhost:8080",
    )
    .capability("memory/store")
    .capability("memory/search");

    assert_eq!(card.name, "shabti-memory");
    assert_eq!(card.description, "Memory management agent");
    assert_eq!(card.endpoint, "https://localhost:8080");
    assert_eq!(card.capabilities.len(), 2);
    assert!(card.capabilities.contains(&"memory/store".to_string()));
}

#[test]
fn message_type_variants() {
    assert_ne!(MessageType::Request, MessageType::Response);
    assert_ne!(MessageType::Request, MessageType::Notification);
    assert_ne!(MessageType::Response, MessageType::Error);
}

#[test]
fn registry_register_and_discover() {
    let mut registry = A2ARegistry::new();

    registry.register(
        AgentCard::new("memory-agent", "Handles memory", "https://mem:8080")
            .capability("memory/store")
            .capability("memory/search"),
    );
    registry.register(
        AgentCard::new("code-agent", "Handles code", "https://code:8080")
            .capability("code/analyze")
            .capability("code/refactor"),
    );

    assert_eq!(registry.agents().len(), 2);
}

#[test]
fn registry_discover_by_capability() {
    let mut registry = A2ARegistry::new();

    registry.register(
        AgentCard::new("memory-agent", "Memory", "https://mem:8080")
            .capability("memory/store")
            .capability("memory/search"),
    );
    registry.register(
        AgentCard::new("search-agent", "Search", "https://search:8080")
            .capability("memory/search")
            .capability("web/search"),
    );
    registry.register(
        AgentCard::new("code-agent", "Code", "https://code:8080").capability("code/analyze"),
    );

    let searchers = registry.discover("memory/search");
    assert_eq!(searchers.len(), 2);

    let coders = registry.discover("code/analyze");
    assert_eq!(coders.len(), 1);
    assert_eq!(coders[0].name, "code-agent");

    let none = registry.discover("nonexistent");
    assert!(none.is_empty());
}

#[test]
fn registry_find_by_name() {
    let mut registry = A2ARegistry::new();
    registry.register(AgentCard::new("my-agent", "Test", "https://test:8080"));

    assert!(registry.find("my-agent").is_some());
    assert!(registry.find("unknown").is_none());
}

#[test]
fn a2a_tests_registry_unregister() {
    let mut registry = A2ARegistry::new();
    registry.register(AgentCard::new(
        "temp-agent",
        "Temporary",
        "https://tmp:8080",
    ));

    assert_eq!(registry.agents().len(), 1);
    registry.unregister("temp-agent");
    assert_eq!(registry.agents().len(), 0);
}

#[test]
fn registry_register_upsert() {
    let mut registry = A2ARegistry::new();
    registry.register(AgentCard::new("agent-a", "Version 1", "https://v1:8080"));
    registry.register(AgentCard::new("agent-a", "Version 2", "https://v2:8080"));

    assert_eq!(registry.agents().len(), 1);
    let agent = registry.find("agent-a").unwrap();
    assert_eq!(agent.description, "Version 2");
    assert_eq!(agent.endpoint, "https://v2:8080");
}

#[test]
fn message_type_wire_names() {
    assert_eq!(MessageType::Request.as_str(), "request");
    assert_eq!(MessageType::Response.as_str(), "response");
    assert_eq!(MessageType::Notification.as_str(), "notification");
    assert_eq!(MessageType::Error.as_str(), "error");
}

#[test]
fn upsert_keeps_position() {
    let mut registry = A2ARegistry::new();
    registry.register(AgentCard::new("a", "1", "u"));
    registry.register(AgentCard::new("b", "1", "u"));
    registry.register(AgentCard::new("a", "2", "u"));
    let names: Vec<&str> = registry.agents().iter().map(|c| c.name.as_str()).collect();
    assert_eq!(names, vec!["a", "b"]);
    assert_eq!(registry.agents()[0].description, "2");
}

#[test]
fn create_a2a_message() {
    let mut content = serde_json::Map::new();
    content.insert("action".to_string(), Value::String("memory/search".to_string()));
    content.insert("query".to_string(), Value::String("hello".to_string()));
    let msg = A2AMessage::new("agent-a", "agent-b", MessageType::Request, Value::Object(content));

    assert_eq!(msg.from, "agent-a");
    assert_eq!(msg.to, "agent-b");
    assert_eq!(msg.message_type, MessageType::Request);
    assert_eq!(msg.content["action"], "memory/search");
    assert!(!msg.id.is_empty());
}

#[test]
fn a2a_message_id_is_a_hyphenated_uuid() {
    let msg = A2AMessage::new("a", "b", MessageType::Notification, Value::Null);
    let parsed = uuid::Uuid::parse_str(&msg.id).expect("a UUID");
    assert_eq!(parsed.hyphenated().to_string(), msg.id);
    let other = A2AMessage::new("a", "b", MessageType::Notification, Value::Null);
    assert_ne!(msg.id, other.id);
}

#[test]
fn unregister_undoes_register_of_a_new_name() {
    let mut registry = A2ARegistry::new();
    registry.register(AgentCard::new("a", "A", "u").capability("x"));
    let before: Vec<String> = registry.agents().iter().map(|c| c.name.clone()).collect();
    registry.register(AgentCard::new("b", "B", "u"));
    registry.unregister("b");
    let after: Vec<String> = registry.agents().iter().map(|c| c.name.clone()).collect();
    assert_eq!(before, after);
    assert!(registry.find("b").is_none());
}
