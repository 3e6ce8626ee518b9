use tiny_tokio_actor::ActorPath;

#[test]
fn parse_and_display_user_path() {
    let path = ActorPath::from("/user/test-actor");
    assert_eq!(path.to_string(), "/user/test-actor".to_string());
}

#[test]
fn parse_skips_empty_names() {
    let path = ActorPath::from("//user///a/");
    assert_eq!(path.to_string(), "/user/a".to_string());
    assert!(path == ActorPath::from("/user/a"));
}

#[test]
fn empty_path_displays_as_slash() {
    assert_eq!(ActorPath::from("").to_string(), "/".to_string());
    assert_eq!(ActorPath::from("///").to_string(), "/".to_string());
    assert!(ActorPath::from("/") == ActorPath::default());
}

#[test]
fn parse_without_leading_slash() {
    let path = ActorPath::from("test");
    assert_eq!(path.to_string(), "/test".to_string());
    assert!(path == ActorPath::from("/test"));
}

#[test]
fn join_appends_a_child() {
    let parent = ActorPath::from("/user");
    let child = parent.clone().join("child");
    assert_eq!(child.to_string(), "/user/child".to_string());
    assert!(child == ActorPath::from("/user/child"));
    assert!(child.is_descendant_of(&parent));
    assert!(!parent.is_descendant_of(&child));
}

#[test]
fn descendants_are_found_by_names_not_text() {
    let actor = ActorPath::from("/user/test");
    let grandchild = ActorPath::from("/user/test/child/leaf");
    let look_alike = ActorPath::from("/user/testing");
    assert!(grandchild.is_descendant_of(&actor));
    assert!(!look_alike.is_descendant_of(&actor));
    assert!(!actor.is_descendant_of(&actor));
    assert!(actor.is_descendant_of(&ActorPath::default()));
}

#[test]
fn display_then_parse_round_trip() {
    let path = ActorPath::from("/user").join("a").join("b-c");
    let again = ActorPath::from(path.to_string().as_str());
    assert!(again == path);
}

#[test]
fn order_of_paths() {
    let a = ActorPath::from("/user/a");
    let ab = ActorPath::from("/user/a/b");
    let b = ActorPath::from("/user/b");
    assert!(a.sorts_before(&ab));
    assert!(ab.sorts_before(&b));
    assert!(a.sorts_before(&b));
    assert!(!b.sorts_before(&a));
    assert!(!a.sorts_before(&a));
    // the order agrees with the derived one
    assert!(a < ab && ab < b);
}

#[test]
fn order_by_code_points() {
    let upper = ActorPath::from("/Z");
    let lower = ActorPath::from("/a");
    let accented = ActorPath::from("/é");
    assert!(upper.sorts_before(&lower));
    assert!(lower.sorts_before(&accented));
    assert_eq!(upper < lower, upper.sorts_before(&lower));
    assert_eq!(lower < accented, lower.sorts_before(&accented));
}

#[test]
fn unicode_names_round_trip() {
    let path = ActorPath::from("/usér/акт");
    assert_eq!(path.to_string(), "/usér/акт".to_string());
}

#[test]
fn same_as_and_clone() {
    let a = ActorPath::from("/x/y");
    let b = a.clone();
    assert!(a.same_as(&b));
    assert!(!a.same_as(&ActorPath::from("/x")));
    assert_eq!(a, b);
}

#[test]
fn top_level_paths_live_under_user() {
    let path = tiny_tokio_actor::system::top_level_path("test-actor");
    assert_eq!(path.to_string(), "/user/test-actor".to_string());
    assert!(path == ActorPath::from("/user").join("test-actor"));
}

#[test]
fn slash_operator_joins_a_child() {
    let child = ActorPath::from("/user") / "test-actor";
    assert_eq!(child.to_string(), "/user/test-actor".to_string());
    let grandchild = child.clone() / "child";
    assert!(grandchild.is_descendant_of(&child));
}
