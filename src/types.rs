use vstd::prelude::*;

verus! {

/// Why a registry command was refused.
#[derive(Debug, Clone, Copy, PartialEq, Eq, Structural)]
pub enum RegistryError {
    /// The tenant, webhook or route named does not exist, or belongs to another tenant.
    NotFound,
    /// The tenant already holds as many webhooks as the registry allows.
    QuotaExceeded,
    /// The webhook already routes a repository of that name, compared case-insensitively.
    Conflict,
    /// The input is malformed (an event list with a comma, a snapshot of an unknown protocol).
    ValidationError,
    /// The secret could not be delivered to the requesting user.
    Unreachable,
    /// The store refused the write (an identifier that is already taken).
    StoreError,
}

/// A workspace that owns webhooks.
pub struct Tenant {
    pub id: String,
    pub registered_at: u64,
}

/// What a tenant record is, as a value.
pub struct TenantModel {
    pub id: Seq<char>,
    pub registered_at: nat,
}

impl View for Tenant {
    type V = TenantModel;

    open spec fn view(&self) -> TenantModel {
        TenantModel { id: self.id@, registered_at: self.registered_at as nat }
    }
}

/// An inbound event receiver with its shared secret.
pub struct Webhook {
    pub id: String,
    pub tenant_id: String,
    pub comment: String,
    pub secret: String,
    pub broken: bool,
    pub created_by: String,
    pub last_updated_by: String,
    pub created_at: u64,
    pub last_updated_at: u64,
}

/// What a webhook record is, as a value.
pub struct WebhookModel {
    pub id: Seq<char>,
    pub tenant_id: Seq<char>,
    pub comment: Seq<char>,
    pub secret: Seq<char>,
    pub broken: bool,
    pub created_by: Seq<char>,
    pub last_updated_by: Seq<char>,
    pub created_at: nat,
    pub last_updated_at: nat,
}

impl View for Webhook {
    type V = WebhookModel;

    open spec fn view(&self) -> WebhookModel {
        WebhookModel {
            id: self.id@,
            tenant_id: self.tenant_id@,
            comment: self.comment@,
            secret: self.secret@,
            broken: self.broken,
            created_by: self.created_by@,
            last_updated_by: self.last_updated_by@,
            created_at: self.created_at as nat,
            last_updated_at: self.last_updated_at as nat,
        }
    }
}

impl Clone for Webhook {
    fn clone(&self) -> (r: Self)
        ensures
            r@ == self@,
    {
        Webhook {
            id: self.id.clone(),
            tenant_id: self.tenant_id.clone(),
            comment: self.comment.clone(),
            secret: self.secret.clone(),
            broken: self.broken,
            created_by: self.created_by.clone(),
            last_updated_by: self.last_updated_by.clone(),
            created_at: self.created_at,
            last_updated_at: self.last_updated_at,
        }
    }
}

/// The views of a list of strings.
pub open spec fn views_of(v: Seq<String>) -> Seq<Seq<char>> {
    v.map_values(|s: String| s@)
}

/// Copies a list of strings.
pub fn copy_strings(v: &Vec<String>) -> (r: Vec<String>)
    ensures
        views_of(r@) == views_of(v@),
{
    let mut r: Vec<String> = Vec::new();
    let mut i: usize = 0;
    while i < v.len()
        invariant
            i <= v@.len(),
            r@.len() == i,
            forall|k: int| 0 <= k < i ==> #[trigger] r@[k]@ == v@[k]@,
        decreases v@.len() - i,
    {
        r.push(v[i].clone());
        i = i + 1;
    }
    assert(views_of(r@) =~= views_of(v@));
    r
}

/// A mapping from one repository to one destination channel, under one webhook.
pub struct Route {
    pub id: String,
    pub webhook_id: String,
    pub tenant_id: String,
    /// The repository as `owner/name`, case-folded.
    pub repo_name: String,
    pub channel_id: String,
    /// The event types let through; none means every event.
    pub events: Vec<String>,
    pub created_by: String,
    pub last_updated_by: String,
}

/// What a route record is, as a value.
pub struct RouteModel {
    pub id: Seq<char>,
    pub webhook_id: Seq<char>,
    pub tenant_id: Seq<char>,
    pub repo_name: Seq<char>,
    pub channel_id: Seq<char>,
    pub events: Seq<Seq<char>>,
    pub created_by: Seq<char>,
    pub last_updated_by: Seq<char>,
}

impl View for Route {
    type V = RouteModel;

    open spec fn view(&self) -> RouteModel {
        RouteModel {
            id: self.id@,
            webhook_id: self.webhook_id@,
            tenant_id: self.tenant_id@,
            repo_name: self.repo_name@,
            channel_id: self.channel_id@,
            events: views_of(self.events@),
            created_by: self.created_by@,
            last_updated_by: self.last_updated_by@,
        }
    }
}

impl Clone for Route {
    fn clone(&self) -> (r: Self)
        ensures
            r@ == self@,
    {
        Route {
            id: self.id.clone(),
            webhook_id: self.webhook_id.clone(),
            tenant_id: self.tenant_id.clone(),
            repo_name: self.repo_name.clone(),
            channel_id: self.channel_id.clone(),
            events: copy_strings(&self.events),
            created_by: self.created_by.clone(),
            last_updated_by: self.last_updated_by.clone(),
        }
    }
}

/// The fields of a webhook that an edit may change; an absent field is left as it is.
pub struct WebhookPatch {
    pub comment: Option<String>,
    pub broken: Option<bool>,
    pub secret: Option<String>,
}

/// A new webhook's identifier and secret, to be handed to the user once.
pub struct NewWebhook {
    pub id: String,
    pub secret: String,
}

/// A webhook of a tenant with the routes under it.
pub struct WebhookListing {
    pub webhook: Webhook,
    pub routes: Vec<Route>,
}

/// One route in a snapshot, without the identifiers that tie it to a registry.
pub struct SnapshotRoute {
    pub repo_name: String,
    pub channel_id: String,
    pub events: Vec<String>,
}

/// What a snapshot entry is, as a value.
pub struct SnapshotRouteModel {
    pub repo_name: Seq<char>,
    pub channel_id: Seq<char>,
    pub events: Seq<Seq<char>>,
}

impl View for SnapshotRoute {
    type V = SnapshotRouteModel;

    open spec fn view(&self) -> SnapshotRouteModel {
        SnapshotRouteModel {
            repo_name: self.repo_name@,
            channel_id: self.channel_id@,
            events: views_of(self.events@),
        }
    }
}

/// The views of a list of snapshot entries.
pub open spec fn entries_of(v: Seq<SnapshotRoute>) -> Seq<SnapshotRouteModel> {
    v.map_values(|e: SnapshotRoute| e@)
}

/// A portable copy of a webhook's routes, tagged with the version of its format.
pub struct Snapshot {
    pub protocol: u64,
    pub routes: Vec<SnapshotRoute>,
}

/// The format version that snapshots are written in.
pub const SNAPSHOT_PROTOCOL: u64 = 1;

/// The version given to a snapshot read from the older, untagged form (a bare list of routes).
pub const LEGACY_SNAPSHOT_PROTOCOL: u64 = 0;

/// How many snapshot entries an import added, and how many it overwrote.
#[derive(Debug, Clone, Copy, PartialEq, Eq, Structural)]
pub struct ImportSummary {
    pub inserted: u64,
    pub updated: u64,
}

} // verus!
