use gitlogs_registry::config::Config;
use gitlogs_registry::registry::{Registry, DEFAULT_MAX_WEBHOOKS, ID_LEN, SECRET_LEN};
use gitlogs_registry::types::{RegistryError, WebhookPatch};

fn is_token(s: &str, len: usize) -> bool {
    s.chars().count() == len && s.chars().all(|c| c.is_ascii_alphanumeric())
}

#[test]
fn create_webhook_registers_tenant() {
    let mut reg = Registry::new(DEFAULT_MAX_WEBHOOKS);
    assert!(!reg.has_tenant("guild-1"));
    let created = reg
        .create_webhook("guild-1", "CI notifications".to_string(), None, "user-1", 10)
        .unwrap();
    assert!(is_token(&created.id, ID_LEN));
    assert!(is_token(&created.secret, SECRET_LEN));
    assert!(reg.has_tenant("guild-1"));
    assert_eq!(reg.webhook_count("guild-1"), 1);
    let listing = reg.list_webhooks("guild-1", 11);
    assert_eq!(listing.len(), 1);
    let w = &listing[0].webhook;
    assert_eq!(w.id, created.id);
    assert_eq!(w.secret, created.secret);
    assert_eq!(w.comment, "CI notifications");
    assert!(!w.broken);
    assert_eq!(w.created_by, "user-1");
    assert_eq!(w.created_at, 10);
    assert!(listing[0].routes.is_empty());
}

#[test]
fn create_webhook_marks_broken_when_asked() {
    let mut reg = Registry::new(DEFAULT_MAX_WEBHOOKS);
    reg.create_webhook("g", "old relay".to_string(), Some(true), "u", 1).unwrap();
    assert!(reg.list_webhooks("g", 2)[0].webhook.broken);
}

#[test]
fn quota_caps_webhooks_per_tenant() {
    let mut reg = Registry::new(3);
    for i in 0..3 {
        reg.create_webhook("g", format!("hook {i}"), None, "u", 1).unwrap();
    }
    let refused = reg.create_webhook("g", "one too many".to_string(), None, "u", 2);
    assert!(matches!(refused, Err(RegistryError::QuotaExceeded)));
    assert_eq!(reg.webhook_count("g"), 3);
    // another tenant has a quota of its own
    reg.create_webhook("other", "first".to_string(), None, "u", 3).unwrap();
    assert_eq!(reg.webhook_count("other"), 1);
}

#[test]
fn quota_of_five_refuses_sixth() {
    let mut reg = Registry::new(DEFAULT_MAX_WEBHOOKS);
    for i in 0..5 {
        assert!(reg.create_webhook("g", format!("{i}"), None, "u", 1).is_ok());
    }
    assert!(matches!(
        reg.create_webhook("g", "6".to_string(), None, "u", 1),
        Err(RegistryError::QuotaExceeded)
    ));
    // a deleted webhook frees its place
    let id = reg.list_webhooks("g", 2)[0].webhook.id.clone();
    reg.delete_webhook("g", &id, 3);
    assert!(reg.create_webhook("g", "6".to_string(), None, "u", 4).is_ok());
    assert_eq!(reg.webhook_count("g"), 5);
}

#[test]
fn quota_of_zero_refuses_everything() {
    let mut reg = Registry::new(0);
    assert!(matches!(
        reg.create_webhook("g", "x".to_string(), None, "u", 1),
        Err(RegistryError::QuotaExceeded)
    ));
    // the tenant is registered even though the webhook was refused
    assert!(reg.has_tenant("g"));
}

#[test]
fn insert_webhook_refuses_taken_identifier() {
    let mut reg = Registry::new(DEFAULT_MAX_WEBHOOKS);
    reg.insert_webhook("g", "a".to_string(), false, "hook1".to_string(), "s1".to_string(), "u", 1)
        .unwrap();
    let again = reg.insert_webhook("h", "b".to_string(), false, "hook1".to_string(), "s2".to_string(), "u", 2);
    assert!(matches!(again, Err(RegistryError::StoreError)));
    assert_eq!(reg.webhook_count("h"), 0);
    assert!(reg.has_tenant("h"));
}

#[test]
fn edit_webhook_changes_only_given_fields() {
    let mut reg = Registry::new(DEFAULT_MAX_WEBHOOKS);
    reg.insert_webhook("g", "before".to_string(), false, "hook1".to_string(), "s1".to_string(), "u1", 1)
        .unwrap();
    let patch = WebhookPatch { comment: Some("after".to_string()), broken: None, secret: None };
    reg.edit_webhook("g", "hook1", patch, "u2", 5).unwrap();
    let w = reg.list_webhooks("g", 6)[0].webhook.clone();
    assert_eq!(w.comment, "after");
    assert!(!w.broken);
    assert_eq!(w.secret, "s1");
    assert_eq!(w.created_by, "u1");
    assert_eq!(w.last_updated_by, "u2");
    assert_eq!(w.last_updated_at, 5);
    assert_eq!(w.created_at, 1);

    let patch = WebhookPatch { comment: None, broken: Some(true), secret: Some("s2".to_string()) };
    reg.edit_webhook("g", "hook1", patch, "u3", 7).unwrap();
    let w = reg.list_webhooks("g", 8)[0].webhook.clone();
    assert_eq!(w.comment, "after");
    assert!(w.broken);
    assert_eq!(w.secret, "s2");
    assert_eq!(w.last_updated_by, "u3");

    // an empty patch still stamps the edit
    let patch = WebhookPatch { comment: None, broken: None, secret: None };
    reg.edit_webhook("g", "hook1", patch, "u4", 9).unwrap();
    let w = reg.list_webhooks("g", 10)[0].webhook.clone();
    assert_eq!(w.last_updated_by, "u4");
    assert_eq!(w.last_updated_at, 9);
}

#[test]
fn edit_webhook_of_other_tenant_is_not_found() {
    let mut reg = Registry::new(DEFAULT_MAX_WEBHOOKS);
    reg.insert_webhook("g", "mine".to_string(), false, "hook1".to_string(), "s1".to_string(), "u", 1)
        .unwrap();
    let patch = WebhookPatch { comment: Some("stolen".to_string()), broken: None, secret: None };
    assert!(matches!(
        reg.edit_webhook("intruder", "hook1", patch, "x", 2),
        Err(RegistryError::NotFound)
    ));
    assert_eq!(reg.list_webhooks("g", 3)[0].webhook.comment, "mine");
}

#[test]
fn rotate_secret_replaces_secret() {
    let mut reg = Registry::new(DEFAULT_MAX_WEBHOOKS);
    let created = reg.create_webhook("g", "c".to_string(), None, "u", 1).unwrap();
    let secret = reg.rotate_secret("g", &created.id, "u2", 2).unwrap();
    assert!(is_token(&secret, SECRET_LEN));
    assert_ne!(secret, created.secret);
    let w = reg.list_webhooks("g", 3)[0].webhook.clone();
    assert_eq!(w.secret, secret);
    assert_eq!(w.comment, "c");
    assert_eq!(w.last_updated_by, "u2");
    assert_eq!(w.last_updated_at, 1);
}

#[test]
fn rotate_secret_of_missing_webhook_is_not_found() {
    let mut reg = Registry::new(DEFAULT_MAX_WEBHOOKS);
    assert!(matches!(reg.rotate_secret("g", "nope", "u", 1), Err(RegistryError::NotFound)));
}

#[test]
fn delete_webhook_twice_is_noop() {
    let mut reg = Registry::new(DEFAULT_MAX_WEBHOOKS);
    let a = reg.create_webhook("g", "a".to_string(), None, "u", 1).unwrap();
    let b = reg.create_webhook("g", "b".to_string(), None, "u", 1).unwrap();
    reg.delete_webhook("g", &a.id, 2);
    assert_eq!(reg.webhook_count("g"), 1);
    reg.delete_webhook("g", &a.id, 3);
    assert_eq!(reg.webhook_count("g"), 1);
    let listing = reg.list_webhooks("g", 4);
    assert_eq!(listing.len(), 1);
    assert_eq!(listing[0].webhook.id, b.id);
}

#[test]
fn delete_webhook_of_other_tenant_keeps_it() {
    let mut reg = Registry::new(DEFAULT_MAX_WEBHOOKS);
    let a = reg.create_webhook("g", "a".to_string(), None, "u", 1).unwrap();
    reg.create_route("g", &a.id, "acme", "widgets", "1".to_string(), "u", 1).unwrap();
    reg.delete_webhook("other", &a.id, 2);
    let listing = reg.list_webhooks("g", 3);
    assert_eq!(listing.len(), 1);
    assert_eq!(listing[0].routes.len(), 1);
}

#[test]
fn delete_webhook_removes_its_routes() {
    let mut reg = Registry::new(DEFAULT_MAX_WEBHOOKS);
    let a = reg.create_webhook("g", "a".to_string(), None, "u", 1).unwrap();
    let b = reg.create_webhook("g", "b".to_string(), None, "u", 1).unwrap();
    let ra = reg.create_route("g", &a.id, "acme", "one", "1".to_string(), "u", 1).unwrap();
    reg.create_route("g", &a.id, "acme", "two", "2".to_string(), "u", 1).unwrap();
    reg.create_route("g", &b.id, "acme", "three", "3".to_string(), "u", 1).unwrap();
    reg.delete_webhook("g", &a.id, 2);
    let listing = reg.list_webhooks("g", 3);
    assert_eq!(listing.len(), 1);
    assert_eq!(listing[0].routes.len(), 1);
    assert_eq!(listing[0].routes[0].repo_name, "acme/three");
    // the deleted route can no longer be edited
    assert!(matches!(
        reg.set_route_channel("g", &ra, "9".to_string(), "u", 4),
        Err(RegistryError::NotFound)
    ));
}

#[test]
fn config_default_values() {
    let c = Config::default();
    assert_eq!(c.database_url, "");
    assert_eq!(c.token, "");
    assert_eq!(c.api_url, "https://v2.gitlogs.xyz");
    assert_eq!(c.proxy_url.as_deref(), Some("http://127.0.0.1:3219"));
}
