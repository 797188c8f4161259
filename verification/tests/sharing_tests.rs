use shabti::agent::{Agent, AgentRole};
use shabti::namespace::NamespacePolicy;
use shabti::sharing::{ShareRequest, ShareResponse, SharingProtocol};
use shabti::types::Scope;

#[test]
fn share_request_creation() {
    let alice = Agent::new("alice", AgentRole::Worker);
    let bob = Agent::new("bob", AgentRole::Researcher);

    let request = ShareRequest::new(alice.id, bob.id, "agent:alice", "Found critical bug");
    assert_eq!(request.from_agent, alice.id);
    assert_eq!(request.to_agent, bob.id);
    assert_eq!(request.namespace, "agent:alice");
    assert!(request.is_pending());
}

#[test]
fn accept_share_request() {
    let alice = Agent::new("alice", AgentRole::Worker);
    let bob = Agent::new("bob", AgentRole::Researcher);

    let mut protocol = SharingProtocol::new();
    let mut policy = NamespacePolicy::new();

    let request_id = protocol.request_share(alice.id, bob.id, "agent:alice", "sharing data");

    // Bob cannot access alice's namespace yet
    assert_eq!(
        policy.check_access(&bob, "agent:alice", Scope::Private),
        shabti::namespace::AccessDecision::Denied
    );

    // Bob accepts
    let response = protocol.respond(request_id, ShareResponse::Accepted, &mut policy);
    assert!(response.is_ok());

    // Now bob can access
    assert_eq!(
        policy.check_access(&bob, "agent:alice", Scope::Private),
        shabti::namespace::AccessDecision::Allowed
    );
}

#[test]
fn reject_share_request() {
    let alice = Agent::new("alice", AgentRole::Worker);
    let bob = Agent::new("bob", AgentRole::Researcher);

    let mut protocol = SharingProtocol::new();
    let mut policy = NamespacePolicy::new();

    let request_id = protocol.request_share(alice.id, bob.id, "agent:alice", "sharing data");

    let response = protocol.respond(request_id, ShareResponse::Rejected, &mut policy);
    assert!(response.is_ok());

    // Still denied
    assert_eq!(
        policy.check_access(&bob, "agent:alice", Scope::Private),
        shabti::namespace::AccessDecision::Denied
    );
}

#[test]
fn list_pending_requests() {
    let alice = Agent::new("alice", AgentRole::Worker);
    let bob = Agent::new("bob", AgentRole::Researcher);
    let charlie = Agent::new("charlie", AgentRole::Worker);

    let mut protocol = SharingProtocol::new();

    protocol.request_share(alice.id, bob.id, "agent:alice", "data 1");
    protocol.request_share(charlie.id, bob.id, "agent:charlie", "data 2");
    protocol.request_share(alice.id, charlie.id, "agent:alice", "data 3");

    // Bob has 2 pending requests
    let bobs_pending = protocol.pending_for(bob.id);
    assert_eq!(bobs_pending.len(), 2);

    // Charlie has 1 pending request
    let charlies_pending = protocol.pending_for(charlie.id);
    assert_eq!(charlies_pending.len(), 1);
}

#[test]
fn invalid_request_id_returns_error() {
    let mut protocol = SharingProtocol::new();
    let mut policy = NamespacePolicy::new();

    let fake_id = uuid::Uuid::new_v4().as_u128();
    let result = protocol.respond(fake_id, ShareResponse::Accepted, &mut policy);
    assert!(result.is_err());
}

#[test]
fn cannot_respond_twice() {
    let alice = Agent::new("alice", AgentRole::Worker);
    let bob = Agent::new("bob", AgentRole::Researcher);

    let mut protocol = SharingProtocol::new();
    let mut policy = NamespacePolicy::new();

    let request_id = protocol.request_share(alice.id, bob.id, "agent:alice", "data");

    // First response succeeds
    assert!(protocol
        .respond(request_id, ShareResponse::Accepted, &mut policy)
        .is_ok());

    // Second response fails
    assert!(protocol
        .respond(request_id, ShareResponse::Accepted, &mut policy)
        .is_err());
}

#[test]
fn respond_errors_name_the_request() {
    let mut protocol = SharingProtocol::new();
    let mut policy = NamespacePolicy::new();
    let fake = uuid::Uuid::new_v4();
    match protocol.respond(fake.as_u128(), ShareResponse::Rejected, &mut policy) {
        Err(e) => assert_eq!(e.to_string(), format!("storage error: request {fake} not found")),
        Ok(()) => panic!("unknown request accepted"),
    }
    let id = protocol.request_share(1, 2, "agent:a", "r");
    protocol.respond(id, ShareResponse::Rejected, &mut policy).unwrap();
    let shown = uuid::Uuid::from_u128(id);
    match protocol.respond(id, ShareResponse::Accepted, &mut policy) {
        Err(e) => assert_eq!(e.to_string(), format!("storage error: request {shown} already resolved")),
        Ok(()) => panic!("answered twice"),
    }
    assert!(protocol.pending_for(2).is_empty());
}
