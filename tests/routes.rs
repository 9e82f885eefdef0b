use gitlogs_registry::registry::{Registry, DEFAULT_MAX_WEBHOOKS, ID_LEN};
use gitlogs_registry::types::RegistryError;

fn setup() -> (Registry, String) {
    let mut reg = Registry::new(DEFAULT_MAX_WEBHOOKS);
    let w = reg.create_webhook("g", "hook".to_string(), None, "u", 1).unwrap();
    (reg, w.id)
}

#[test]
fn create_route_conflict_ignores_case() {
    let (mut reg, w) = setup();
    let id = reg.create_route("g", &w, "acme", "widgets", "123".to_string(), "u", 2).unwrap();
    assert_eq!(id.chars().count(), ID_LEN);
    let second = reg.create_route("g", &w, "ACME", "Widgets", "456".to_string(), "u", 3);
    assert!(matches!(second, Err(RegistryError::Conflict)));
    let listing = reg.list_webhooks("g", 4);
    assert_eq!(listing[0].routes.len(), 1);
    assert_eq!(listing[0].routes[0].channel_id, "123");
}

#[test]
fn create_route_stores_folded_name() {
    let (mut reg, w) = setup();
    let id = reg.create_route("g", &w, "MyOrg", "Some-Repo", "7".to_string(), "u", 2).unwrap();
    let listing = reg.list_webhooks("g", 3);
    let r = &listing[0].routes[0];
    assert_eq!(r.id, id);
    assert_eq!(r.repo_name, "myorg/some-repo");
    assert_eq!(r.webhook_id, w);
    assert_eq!(r.tenant_id, "g");
    assert!(r.events.is_empty());
    assert_eq!(r.created_by, "u");
}

#[test]
fn create_route_distinct_names_succeed() {
    let (mut reg, w) = setup();
    reg.create_route("g", &w, "acme", "widgets", "1".to_string(), "u", 2).unwrap();
    reg.create_route("g", &w, "acme", "gadgets", "1".to_string(), "u", 2).unwrap();
    reg.create_route("g", &w, "acme-widgets", "", "1".to_string(), "u", 2).unwrap();
    assert_eq!(reg.list_webhooks("g", 3)[0].routes.len(), 3);
}

#[test]
fn same_repo_under_two_webhooks_is_allowed() {
    let (mut reg, w) = setup();
    let w2 = reg.create_webhook("g", "second".to_string(), None, "u", 1).unwrap().id;
    reg.create_route("g", &w, "acme", "widgets", "1".to_string(), "u", 2).unwrap();
    assert!(reg.create_route("g", &w2, "acme", "widgets", "2".to_string(), "u", 2).is_ok());
}

#[test]
fn create_route_on_missing_webhook_is_not_found() {
    let (mut reg, w) = setup();
    assert!(matches!(
        reg.create_route("g", "nope", "a", "b", "1".to_string(), "u", 2),
        Err(RegistryError::NotFound)
    ));
    assert!(matches!(
        reg.create_route("other", &w, "a", "b", "1".to_string(), "u", 2),
        Err(RegistryError::NotFound)
    ));
}

#[test]
fn insert_route_refuses_taken_identifier() {
    let (mut reg, w) = setup();
    reg.insert_route("g", &w, "a/b".to_string(), "1".to_string(), "r1".to_string(), "u", 2).unwrap();
    let again = reg.insert_route("g", &w, "a/c".to_string(), "1".to_string(), "r1".to_string(), "u", 2);
    assert!(matches!(again, Err(RegistryError::StoreError)));
    let dup = reg.insert_route("g", &w, "a/b".to_string(), "1".to_string(), "r2".to_string(), "u", 2);
    assert!(matches!(dup, Err(RegistryError::Conflict)));
}

#[test]
fn set_route_channel_updates_channel() {
    let (mut reg, w) = setup();
    let r = reg.create_route("g", &w, "a", "b", "1".to_string(), "u", 2).unwrap();
    reg.set_route_channel("g", &r, "99".to_string(), "u2", 3).unwrap();
    let route = reg.list_webhooks("g", 4)[0].routes[0].clone();
    assert_eq!(route.channel_id, "99");
    assert_eq!(route.last_updated_by, "u2");
    assert_eq!(route.repo_name, "a/b");
    assert!(matches!(
        reg.set_route_channel("other", &r, "5".to_string(), "u", 5),
        Err(RegistryError::NotFound)
    ));
}

#[test]
fn set_route_events_rejects_comma() {
    let (mut reg, w) = setup();
    let r = reg.create_route("g", &w, "a", "b", "1".to_string(), "u", 2).unwrap();
    reg.set_route_events("g", &r, "push", "u", 3).unwrap();
    for text in ["push,pull_request", ",", "push pull,", "a,b c"] {
        assert!(matches!(
            reg.set_route_events("g", &r, text, "u", 4),
            Err(RegistryError::ValidationError)
        ));
    }
    // refused before the route is even looked up
    assert!(matches!(
        reg.set_route_events("g", "missing", "push,pull", "u", 5),
        Err(RegistryError::ValidationError)
    ));
    assert_eq!(reg.list_webhooks("g", 6)[0].routes[0].events, vec!["push".to_string()]);
}

#[test]
fn set_route_events_replaces_whole_set() {
    let (mut reg, w) = setup();
    let r = reg.create_route("g", &w, "a", "b", "1".to_string(), "u", 2).unwrap();
    reg.set_route_events("g", &r, "push pull_request issues", "u", 3).unwrap();
    assert_eq!(
        reg.list_webhooks("g", 4)[0].routes[0].events,
        vec!["push".to_string(), "pull_request".to_string(), "issues".to_string()]
    );
    reg.set_route_events("g", &r, "release", "u", 5).unwrap();
    assert_eq!(reg.list_webhooks("g", 6)[0].routes[0].events, vec!["release".to_string()]);
    assert!(matches!(
        reg.set_route_events("g", "missing", "push", "u", 7),
        Err(RegistryError::NotFound)
    ));
}

#[test]
fn clear_route_events_allows_all() {
    let (mut reg, w) = setup();
    let r = reg.create_route("g", &w, "a", "b", "1".to_string(), "u", 2).unwrap();
    reg.set_route_events("g", &r, "push star", "u", 3).unwrap();
    reg.clear_route_events("g", &r, "u2", 4).unwrap();
    let route = reg.list_webhooks("g", 5)[0].routes[0].clone();
    assert!(route.events.is_empty());
    assert_eq!(route.last_updated_by, "u2");
    // clearing an empty filter leaves it empty
    reg.clear_route_events("g", &r, "u", 6).unwrap();
    assert!(reg.list_webhooks("g", 7)[0].routes[0].events.is_empty());
    assert!(matches!(reg.clear_route_events("g", "missing", "u", 8), Err(RegistryError::NotFound)));
}

#[test]
fn delete_route_is_idempotent() {
    let (mut reg, w) = setup();
    let r1 = reg.create_route("g", &w, "a", "one", "1".to_string(), "u", 2).unwrap();
    reg.create_route("g", &w, "a", "two", "1".to_string(), "u", 2).unwrap();
    reg.delete_route("other", &r1, 3);
    assert_eq!(reg.list_webhooks("g", 4)[0].routes.len(), 2);
    reg.delete_route("g", &r1, 5);
    reg.delete_route("g", &r1, 6);
    let routes = reg.list_webhooks("g", 7)[0].routes.clone();
    assert_eq!(routes.len(), 1);
    assert_eq!(routes[0].repo_name, "a/two");
    // the name is free again
    assert!(reg.create_route("g", &w, "A", "One", "1".to_string(), "u", 8).is_ok());
}

#[test]
fn insert_route_refuses_unfolded_name() {
    let (mut reg, w) = setup();
    let r = reg.insert_route("g", &w, "ACME/x".to_string(), "1".to_string(), "r1".to_string(), "u", 2);
    assert!(matches!(r, Err(RegistryError::ValidationError)));
    assert!(reg.list_webhooks("g", 3)[0].routes.is_empty());
    reg.insert_route("g", &w, "acme/x".to_string(), "1".to_string(), "r1".to_string(), "u", 4).unwrap();
    assert!(matches!(
        reg.create_route("g", &w, "Acme", "X", "2".to_string(), "u", 5),
        Err(RegistryError::Conflict)
    ));
}
