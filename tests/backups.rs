use gitlogs_registry::registry::{Registry, DEFAULT_MAX_WEBHOOKS};
use gitlogs_registry::types::{
    ImportSummary, RegistryError, Snapshot, SnapshotRoute, LEGACY_SNAPSHOT_PROTOCOL, SNAPSHOT_PROTOCOL,
};

fn entry(name: &str, channel: &str, events: &[&str]) -> SnapshotRoute {
    SnapshotRoute {
        repo_name: name.to_string(),
        channel_id: channel.to_string(),
        events: events.iter().map(|e| e.to_string()).collect(),
    }
}

fn copy(s: &Snapshot) -> Snapshot {
    Snapshot {
        protocol: s.protocol,
        routes: s
            .routes
            .iter()
            .map(|e| SnapshotRoute {
                repo_name: e.repo_name.clone(),
                channel_id: e.channel_id.clone(),
                events: e.events.clone(),
            })
            .collect(),
    }
}

#[test]
fn export_then_import_twice() {
    let mut reg = Registry::new(DEFAULT_MAX_WEBHOOKS);
    let src = reg.create_webhook("g", "source".to_string(), None, "u", 1).unwrap().id;
    let dst = reg.create_webhook("g", "target".to_string(), None, "u", 1).unwrap().id;
    reg.insert_route("g", &src, "acme/widgets".to_string(), "123".to_string(), "r1".to_string(), "u", 2)
        .unwrap();
    let snap = reg.export_backup("g", &src, 3).unwrap();
    assert_eq!(snap.protocol, SNAPSHOT_PROTOCOL);
    assert_eq!(snap.routes.len(), 1);
    assert_eq!(snap.routes[0].repo_name, "acme/widgets");
    assert_eq!(snap.routes[0].channel_id, "123");
    assert!(snap.routes[0].events.is_empty());

    let first = reg.import_backup("g", &dst, copy(&snap), "u", 4).unwrap();
    assert_eq!(first, ImportSummary { inserted: 1, updated: 0 });
    let second = reg.import_backup("g", &dst, snap, "u", 5).unwrap();
    assert_eq!(second, ImportSummary { inserted: 0, updated: 1 });
    let listing = reg.list_webhooks("g", 6);
    let target = listing.iter().find(|l| l.webhook.id == dst).unwrap();
    assert_eq!(target.routes.len(), 1);
    assert_eq!(target.routes[0].repo_name, "acme/widgets");
    assert_eq!(target.routes[0].channel_id, "123");
}

#[test]
fn import_is_idempotent() {
    let mut reg = Registry::new(DEFAULT_MAX_WEBHOOKS);
    let w = reg.create_webhook("g", "hook".to_string(), None, "u", 1).unwrap().id;
    let snap = Snapshot {
        protocol: SNAPSHOT_PROTOCOL,
        routes: vec![
            entry("acme/one", "1", &[]),
            entry("acme/two", "2", &["push"]),
            entry("acme/three", "3", &["push", "issues"]),
        ],
    };
    assert_eq!(
        reg.import_backup("g", &w, copy(&snap), "u", 2).unwrap(),
        ImportSummary { inserted: 3, updated: 0 }
    );
    let before = reg.export_backup("g", &w, 3).unwrap();
    assert_eq!(
        reg.import_backup("g", &w, snap, "u", 4).unwrap(),
        ImportSummary { inserted: 0, updated: 3 }
    );
    let after = reg.export_backup("g", &w, 5).unwrap();
    assert_eq!(after.routes.len(), 3);
    for (a, b) in before.routes.iter().zip(after.routes.iter()) {
        assert_eq!(a.repo_name, b.repo_name);
        assert_eq!(a.channel_id, b.channel_id);
        assert_eq!(a.events, b.events);
    }
    assert_eq!(after.routes[2].events, vec!["push".to_string(), "issues".to_string()]);
}

#[test]
fn import_overwrites_channel_and_events_by_folded_name() {
    let mut reg = Registry::new(DEFAULT_MAX_WEBHOOKS);
    let w = reg.create_webhook("g", "hook".to_string(), None, "u", 1).unwrap().id;
    let r = reg.create_route("g", &w, "acme", "widgets", "1".to_string(), "u", 2).unwrap();
    reg.set_route_events("g", &r, "push", "u", 3).unwrap();
    let snap = Snapshot {
        protocol: SNAPSHOT_PROTOCOL,
        routes: vec![entry("ACME/Widgets", "2", &["release"]), entry("Acme/New", "3", &[])],
    };
    assert_eq!(
        reg.import_backup("g", &w, snap, "u2", 4).unwrap(),
        ImportSummary { inserted: 1, updated: 1 }
    );
    let routes = reg.list_webhooks("g", 5)[0].routes.clone();
    assert_eq!(routes.len(), 2);
    assert_eq!(routes[0].id, r);
    assert_eq!(routes[0].repo_name, "acme/widgets");
    assert_eq!(routes[0].channel_id, "2");
    assert_eq!(routes[0].events, vec!["release".to_string()]);
    assert_eq!(routes[1].repo_name, "acme/new");
}

#[test]
fn import_with_repeated_name_inserts_once() {
    let mut reg = Registry::new(DEFAULT_MAX_WEBHOOKS);
    let w = reg.create_webhook("g", "hook".to_string(), None, "u", 1).unwrap().id;
    let snap = Snapshot {
        protocol: LEGACY_SNAPSHOT_PROTOCOL,
        routes: vec![entry("a/b", "1", &[]), entry("A/B", "2", &[])],
    };
    assert_eq!(
        reg.import_backup("g", &w, snap, "u", 2).unwrap(),
        ImportSummary { inserted: 1, updated: 1 }
    );
    let routes = reg.list_webhooks("g", 3)[0].routes.clone();
    assert_eq!(routes.len(), 1);
    assert_eq!(routes[0].channel_id, "2");
}

#[test]
fn import_empty_snapshot_changes_nothing() {
    let mut reg = Registry::new(DEFAULT_MAX_WEBHOOKS);
    let w = reg.create_webhook("g", "hook".to_string(), None, "u", 1).unwrap().id;
    let snap = Snapshot { protocol: SNAPSHOT_PROTOCOL, routes: Vec::new() };
    assert_eq!(
        reg.import_backup("g", &w, snap, "u", 2).unwrap(),
        ImportSummary { inserted: 0, updated: 0 }
    );
    assert!(reg.list_webhooks("g", 3)[0].routes.is_empty());
}

#[test]
fn import_rejects_unknown_protocol_and_commas() {
    let mut reg = Registry::new(DEFAULT_MAX_WEBHOOKS);
    let w = reg.create_webhook("g", "hook".to_string(), None, "u", 1).unwrap().id;
    let snap = Snapshot { protocol: 7, routes: vec![entry("a/b", "1", &[])] };
    assert!(matches!(reg.import_backup("g", &w, snap, "u", 2), Err(RegistryError::ValidationError)));
    let snap = Snapshot {
        protocol: SNAPSHOT_PROTOCOL,
        routes: vec![entry("a/b", "1", &[]), entry("a/c", "1", &["push,pull"])],
    };
    assert!(matches!(reg.import_backup("g", &w, snap, "u", 3), Err(RegistryError::ValidationError)));
    // nothing of a refused snapshot is applied
    assert!(reg.list_webhooks("g", 4)[0].routes.is_empty());
}

#[test]
fn import_and_export_need_owned_webhook() {
    let mut reg = Registry::new(DEFAULT_MAX_WEBHOOKS);
    let w = reg.create_webhook("g", "hook".to_string(), None, "u", 1).unwrap().id;
    let snap = Snapshot { protocol: SNAPSHOT_PROTOCOL, routes: vec![entry("a/b", "1", &[])] };
    assert!(matches!(reg.import_backup("other", &w, snap, "u", 2), Err(RegistryError::NotFound)));
    assert!(matches!(reg.export_backup("other", &w, 3), Err(RegistryError::NotFound)));
    assert!(matches!(reg.export_backup("g", "missing", 4), Err(RegistryError::NotFound)));
}

#[test]
fn import_folded_matches_exact_names() {
    let mut reg = Registry::new(DEFAULT_MAX_WEBHOOKS);
    let w = reg.create_webhook("g", "hook".to_string(), None, "u", 1).unwrap().id;
    reg.insert_route("g", &w, "a/b".to_string(), "1".to_string(), "r1".to_string(), "u", 2).unwrap();
    let snap = Snapshot { protocol: SNAPSHOT_PROTOCOL, routes: vec![entry("a/b", "5", &["push"])] };
    assert_eq!(
        reg.import_folded("g", &w, snap, "u", 3).unwrap(),
        ImportSummary { inserted: 0, updated: 1 }
    );
    let routes = reg.list_webhooks("g", 4)[0].routes.clone();
    assert_eq!(routes[0].id, "r1");
    assert_eq!(routes[0].channel_id, "5");
}

#[test]
fn export_leaves_other_webhooks_out() {
    let mut reg = Registry::new(DEFAULT_MAX_WEBHOOKS);
    let a = reg.create_webhook("g", "a".to_string(), None, "u", 1).unwrap().id;
    let b = reg.create_webhook("g", "b".to_string(), None, "u", 1).unwrap().id;
    reg.create_route("g", &a, "x", "one", "1".to_string(), "u", 2).unwrap();
    reg.create_route("g", &b, "x", "two", "2".to_string(), "u", 2).unwrap();
    reg.create_route("g", &a, "x", "three", "3".to_string(), "u", 2).unwrap();
    let snap = reg.export_backup("g", &a, 3).unwrap();
    let names: Vec<&str> = snap.routes.iter().map(|e| e.repo_name.as_str()).collect();
    assert_eq!(names, vec!["x/one", "x/three"]);
}

#[test]
fn import_folded_refuses_unfolded_names() {
    let mut reg = Registry::new(DEFAULT_MAX_WEBHOOKS);
    let w = reg.create_webhook("g", "hook".to_string(), None, "u", 1).unwrap().id;
    let snap = Snapshot { protocol: SNAPSHOT_PROTOCOL, routes: vec![entry("a/b", "1", &[]), entry("A/C", "1", &[])] };
    assert!(matches!(reg.import_folded("g", &w, snap, "u", 2), Err(RegistryError::ValidationError)));
    assert!(reg.list_webhooks("g", 3)[0].routes.is_empty());
}

#[test]
fn import_updates_keep_route_identity() {
    let mut reg = Registry::new(DEFAULT_MAX_WEBHOOKS);
    let w = reg.create_webhook("g", "hook".to_string(), None, "u", 1).unwrap().id;
    let r = reg.create_route("g", &w, "acme", "one", "1".to_string(), "creator", 2).unwrap();
    let snap = Snapshot { protocol: SNAPSHOT_PROTOCOL, routes: vec![entry("acme/one", "9", &["push"])] };
    reg.import_backup("g", &w, snap, "importer", 3).unwrap();
    let route = reg.list_webhooks("g", 4)[0].routes[0].clone();
    assert_eq!(route.id, r);
    assert_eq!(route.created_by, "creator");
    assert_eq!(route.last_updated_by, "importer");
    assert_eq!(route.channel_id, "9");
}
