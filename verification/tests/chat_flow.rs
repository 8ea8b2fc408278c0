use chat_relay::errors::ChatError;
use chat_relay::protocol::register_line;
use chat_relay::protocol::relay_line;
use chat_relay::protocol::RegistrationStep;
use chat_relay::registry::ClientRecord;
use chat_relay::registry::Registry;

fn join_client(registry: &mut Registry, id: u64, line: &str) -> (String, String, Vec<u64>) {
    match register_line(registry, id, line) {
        RegistrationStep::Admitted { nickname, announcement, peer_targets } => {
            (nickname, announcement, peer_targets)
        }
        _ => panic!("expected the client to be admitted"),
    }
}

#[test]
fn registry_starts_empty() {
    let registry = Registry::new();
    assert_eq!(registry.count(), 0);
    assert!(!registry.contains_nickname("alice"));
    assert!(registry.find_by_nickname("alice").is_none());
}

#[test]
fn insert_then_lookup() {
    let mut registry = Registry::new();
    let admitted = registry.insert(ClientRecord { id: 7, nickname: String::from("alice") });
    assert!(admitted.is_ok());
    assert_eq!(registry.count(), 1);
    assert!(registry.contains_nickname("alice"));
    let found = registry.find_by_nickname("alice").expect("alice is registered");
    assert_eq!(found.id, 7);
    assert_eq!(found.nickname, "alice");
}

#[test]
fn duplicate_nickname_is_rejected_and_changes_nothing() {
    let mut registry = Registry::new();
    assert!(registry.insert(ClientRecord { id: 1, nickname: String::from("alice") }).is_ok());
    let second = registry.insert(ClientRecord { id: 2, nickname: String::from("alice") });
    assert_eq!(second, Err(ChatError::DuplicateNickname));
    assert_eq!(registry.count(), 1);
    assert_eq!(registry.find_by_nickname("alice").expect("still registered").id, 1);
}

#[test]
fn remove_is_idempotent() {
    let mut registry = Registry::new();
    assert!(registry.insert(ClientRecord { id: 1, nickname: String::from("alice") }).is_ok());
    registry.remove("bob");
    assert_eq!(registry.count(), 1);
    registry.remove("alice");
    assert_eq!(registry.count(), 0);
    registry.remove("alice");
    assert_eq!(registry.count(), 0);
}

#[test]
fn broadcast_targets_follow_registry_order_and_skip_the_sender() {
    let mut registry = Registry::new();
    assert!(registry.insert(ClientRecord { id: 10, nickname: String::from("alice") }).is_ok());
    assert!(registry.insert(ClientRecord { id: 20, nickname: String::from("bob") }).is_ok());
    assert!(registry.insert(ClientRecord { id: 30, nickname: String::from("carol") }).is_ok());
    assert_eq!(registry.broadcast_targets("bob"), vec![10, 30]);
    assert_eq!(registry.broadcast_targets("alice"), vec![20, 30]);
    assert_eq!(registry.broadcast_targets("dave"), vec![10, 20, 30]);
}

#[test]
fn first_client_joins_alone() {
    let mut registry = Registry::new();
    let (nickname, announcement, peer_targets) = join_client(&mut registry, 1, "alice\n");
    assert_eq!(nickname, "alice");
    assert_eq!(announcement, "alice Has Joined the chat! Welcome!\n");
    assert!(peer_targets.is_empty());
    assert_eq!(registry.count(), 1);
}

#[test]
fn taken_nickname_is_rejected_then_another_is_admitted() {
    let mut registry = Registry::new();
    join_client(&mut registry, 1, "alice\n");
    match register_line(&mut registry, 2, "alice\n") {
        RegistrationStep::Rejected { reply } => {
            assert_eq!(reply, "nickname alice is already taken. Please enter a new nickname\n");
        }
        _ => panic!("expected the taken nickname to be rejected"),
    }
    assert_eq!(registry.count(), 1);
    let (nickname, announcement, peer_targets) = join_client(&mut registry, 2, "bob\n");
    assert_eq!(nickname, "bob");
    assert_eq!(announcement, "bob Has Joined the chat! Welcome!\n");
    assert_eq!(peer_targets, vec![1]);
    assert_eq!(registry.count(), 2);
}

#[test]
fn joiner_is_not_among_its_own_announcement_targets() {
    let mut registry = Registry::new();
    join_client(&mut registry, 1, "alice\n");
    let (_, _, peer_targets) = join_client(&mut registry, 2, "bob\n");
    assert!(!peer_targets.contains(&2));
    assert_eq!(peer_targets, vec![1]);
}

#[test]
fn empty_or_blank_nickname_is_invalid_and_changes_nothing() {
    let mut registry = Registry::new();
    assert!(matches!(
        register_line(&mut registry, 1, "\n"),
        RegistrationStep::EmptyNickname
    ));
    assert!(matches!(
        register_line(&mut registry, 1, "  \r\n"),
        RegistrationStep::EmptyNickname
    ));
    assert_eq!(registry.count(), 0);
}

#[test]
fn nickname_is_trimmed_before_registration() {
    let mut registry = Registry::new();
    let (nickname, _, _) = join_client(&mut registry, 1, "  carol \r\n");
    assert_eq!(nickname, "carol");
    assert!(registry.contains_nickname("carol"));
}

#[test]
fn chat_line_reaches_only_the_peer() {
    let mut registry = Registry::new();
    join_client(&mut registry, 1, "alice\n");
    join_client(&mut registry, 2, "bob\n");
    let plan = relay_line(&registry, "alice", "hello\n");
    assert_eq!(plan.message, "[alice]: hello\n");
    assert_eq!(plan.targets, vec![2]);
    assert!(!plan.targets.contains(&1));
}

#[test]
fn chat_line_reaches_every_other_client_once() {
    let mut registry = Registry::new();
    join_client(&mut registry, 1, "alice\n");
    join_client(&mut registry, 2, "bob\n");
    join_client(&mut registry, 3, "carol\n");
    let plan = relay_line(&registry, "bob", "hi all\n");
    assert_eq!(plan.message, "[bob]: hi all\n");
    assert_eq!(plan.targets, vec![1, 3]);
}

#[test]
fn after_disconnect_no_delivery_and_the_nickname_is_free() {
    let mut registry = Registry::new();
    join_client(&mut registry, 1, "alice\n");
    join_client(&mut registry, 2, "bob\n");
    registry.remove("bob");
    let plan = relay_line(&registry, "alice", "anyone there?\n");
    assert_eq!(plan.message, "[alice]: anyone there?\n");
    assert!(plan.targets.is_empty());
    let (nickname, _, peer_targets) = join_client(&mut registry, 3, "bob\n");
    assert_eq!(nickname, "bob");
    assert_eq!(peer_targets, vec![1]);
}
