use tiny_tokio_actor::{ActorError, ActorPath, ActorRegistry};

fn path(s: &str) -> ActorPath {
    ActorPath::from(s)
}

#[test]
fn register_then_get() {
    let mut registry: ActorRegistry<u32> = ActorRegistry::new();
    assert!(registry.is_empty());
    assert!(registry.register(path("/user/test-actor"), 7).is_ok());
    assert_eq!(registry.get(&path("/user/test-actor")), Some(&7));
    assert!(registry.contains(&path("/user/test-actor")));
    assert_eq!(registry.get(&path("/user/other")), None);
    assert_eq!(registry.len(), 1);
}

#[test]
fn register_twice_is_refused() {
    let mut registry: ActorRegistry<u32> = ActorRegistry::new();
    registry.register(path("/user/test-actor"), 1).unwrap();
    match registry.register(path("/user/test-actor"), 2) {
        Err(ActorError::Exists(p)) => assert_eq!(p.to_string(), "/user/test-actor".to_string()),
        _ => panic!("a second actor at the same path must be refused"),
    }
    assert_eq!(registry.get(&path("/user/test-actor")), Some(&1));
    assert_eq!(registry.len(), 1);
}

#[test]
fn remove_hands_back_the_entry() {
    let mut registry: ActorRegistry<&str> = ActorRegistry::new();
    registry.register(path("/user/a"), "a").unwrap();
    registry.register(path("/user/b"), "b").unwrap();
    assert_eq!(registry.remove(&path("/user/a")), Some("a"));
    assert_eq!(registry.remove(&path("/user/a")), None);
    assert_eq!(registry.len(), 1);
    assert_eq!(registry.get(&path("/user/b")), Some(&"b"));
}

#[test]
fn stop_takes_the_subtree() {
    let mut registry: ActorRegistry<u32> = ActorRegistry::new();
    registry.register(path("/user/test-actor"), 1).unwrap();
    registry.register(path("/user/test-actor/child"), 2).unwrap();
    registry.register(path("/user/test-actor/child/leaf"), 3).unwrap();
    registry.register(path("/user/test-actor-2"), 4).unwrap();
    registry.register(path("/user"), 5).unwrap();
    let _ = registry.stop(&path("/user/test-actor"));
    assert_eq!(registry.len(), 2);
    assert_eq!(registry.get(&path("/user/test-actor")), None);
    assert_eq!(registry.get(&path("/user/test-actor/child")), None);
    assert_eq!(registry.get(&path("/user/test-actor/child/leaf")), None);
    assert_eq!(registry.get(&path("/user/test-actor-2")), Some(&4));
    assert_eq!(registry.get(&path("/user"), ), Some(&5));
}

#[test]
fn stop_parent_leaves_nothing() {
    // a parent that created a child, then is stopped: nothing stays registered
    let mut registry: ActorRegistry<u32> = ActorRegistry::new();
    registry.register(path("/user/test-actor"), 1).unwrap();
    registry.register(path("/user/test-actor").join("child"), 2).unwrap();
    let _ = registry.stop(&path("/user/test-actor"));
    assert!(registry.is_empty());
    assert_eq!(registry.len(), 0);
    assert!(registry.paths().is_empty());
}

#[test]
fn stop_of_unknown_path_changes_nothing() {
    let mut registry: ActorRegistry<u32> = ActorRegistry::new();
    registry.register(path("/user/a"), 1).unwrap();
    let _ = registry.stop(&path("/user/b"));
    assert_eq!(registry.len(), 1);
}

#[test]
fn stop_order_is_descending() {
    let mut registry: ActorRegistry<u32> = ActorRegistry::new();
    registry.register(path("/user/p/a"), 1).unwrap();
    registry.register(path("/user/q"), 2).unwrap();
    registry.register(path("/user/p/b/c"), 3).unwrap();
    registry.register(path("/user/p/b"), 4).unwrap();
    let order: Vec<String> = registry
        .stop_order(&path("/user/p"))
        .iter()
        .map(|p| p.to_string())
        .collect();
    assert_eq!(
        order,
        vec![
            "/user/p/b/c".to_string(),
            "/user/p/b".to_string(),
            "/user/p/a".to_string(),
            "/user/p".to_string()
        ]
    );
}

#[test]
fn paths_lists_each_registered_path() {
    let mut registry: ActorRegistry<u32> = ActorRegistry::new();
    registry.register(path("/user/a"), 1).unwrap();
    registry.register(path("/user/b"), 2).unwrap();
    let mut names: Vec<String> = registry.paths().iter().map(|p| p.to_string()).collect();
    names.sort();
    assert_eq!(names, vec!["/user/a".to_string(), "/user/b".to_string()]);
}

#[test]
fn error_descriptions() {
    assert_eq!(ActorError::Exists(path("/user/a")).description(), "Actor exists".to_string());
    assert_eq!(
        ActorError::Runtime("boom".to_string()).description(),
        "Actor runtime error".to_string()
    );
    assert_eq!(
        ActorError::SendError("closed".to_string()).description(),
        "Message could not be delivered".to_string()
    );
}

#[test]
fn stop_twice_and_register_again() {
    let mut registry: ActorRegistry<u32> = ActorRegistry::new();
    registry.register(path("/user/a"), 1).unwrap();
    registry.register(path("/user/a/b"), 2).unwrap();
    registry.register(path("/user/c"), 3).unwrap();
    let _ = registry.stop(&path("/user/a"));
    let _ = registry.stop(&path("/user/a"));
    assert_eq!(registry.len(), 1);
    assert!(registry.register(path("/user/a"), 4).is_ok());
    assert_eq!(registry.get(&path("/user/a")), Some(&4));
    assert_eq!(registry.get(&path("/user/a/b")), None);
}

#[test]
fn stop_at_root_clears_everything() {
    let mut registry: ActorRegistry<u32> = ActorRegistry::new();
    registry.register(path("/user/a"), 1).unwrap();
    registry.register(path("/system/b"), 2).unwrap();
    let _ = registry.stop(&ActorPath::default());
    assert!(registry.is_empty());
}

#[test]
fn stop_hands_back_the_stopped_entries_in_order() {
    let mut registry: ActorRegistry<u32> = ActorRegistry::new();
    registry.register(path("/user/p"), 1).unwrap();
    registry.register(path("/user/p/a"), 2).unwrap();
    registry.register(path("/user/p/a/x"), 3).unwrap();
    registry.register(path("/user/q"), 4).unwrap();
    let stopped: Vec<(String, u32)> = registry
        .stop(&path("/user/p"))
        .into_iter()
        .map(|(p, v)| (p.to_string(), v))
        .collect();
    assert_eq!(
        stopped,
        vec![
            ("/user/p/a/x".to_string(), 3),
            ("/user/p/a".to_string(), 2),
            ("/user/p".to_string(), 1)
        ]
    );
    assert_eq!(registry.len(), 1);
}

#[test]
fn stop_of_unregistered_parent_hands_back_only_children() {
    let mut registry: ActorRegistry<u32> = ActorRegistry::new();
    registry.register(path("/user/p/a"), 2).unwrap();
    let stopped = registry.stop(&path("/user/p"));
    assert_eq!(stopped.len(), 1);
    assert_eq!(stopped[0].0.to_string(), "/user/p/a".to_string());
    assert_eq!(stopped[0].1, 2);
}
