use vstd::prelude::*;

use crate::merge::{entry_names, merge, route_table, RouteContent};
use crate::registry::ID_LEN;
use crate::text::{is_id, lower_of};
use crate::types::{
    ImportSummary, RegistryError, RouteModel, SnapshotRouteModel, TenantModel, WebhookModel,
    WebhookPatch, LEGACY_SNAPSHOT_PROTOCOL, SNAPSHOT_PROTOCOL,
};

verus! {

/// The three tables of the registry, as values.
pub struct RegistryModel {
    pub tenants: Seq<TenantModel>,
    pub webhooks: Seq<WebhookModel>,
    pub routes: Seq<RouteModel>,
    pub max_webhooks: nat,
}

/// How many of `ws` belong to tenant `t`.
pub open spec fn count_owned(ws: Seq<WebhookModel>, t: Seq<char>) -> nat
    decreases ws.len(),
{
    if ws.len() == 0 {
        0
    } else {
        count_owned(ws.drop_last(), t) + if ws.last().tenant_id == t {
            1nat
        } else {
            0nat
        }
    }
}

/// No event name holds the comma that separates names in typed input.
pub open spec fn events_ok(events: Seq<Seq<char>>) -> bool {
    forall|k: int| 0 <= k < events.len() ==> !(#[trigger] events[k]).contains(',')
}

impl RegistryModel {
    /// Tenant `t` is registered.
    pub open spec fn has_tenant(self, t: Seq<char>) -> bool {
        exists|i: int| 0 <= i < self.tenants.len() && (#[trigger] self.tenants[i]).id == t
    }

    /// Webhook `w` exists and belongs to tenant `t`.
    pub open spec fn owns_webhook(self, t: Seq<char>, w: Seq<char>) -> bool {
        exists|i: int|
            0 <= i < self.webhooks.len() && (#[trigger] self.webhooks[i]).id == w
                && self.webhooks[i].tenant_id == t
    }

    /// Some webhook has the identifier `w`, whoever owns it.
    pub open spec fn webhook_id_taken(self, w: Seq<char>) -> bool {
        exists|i: int| 0 <= i < self.webhooks.len() && (#[trigger] self.webhooks[i]).id == w
    }

    /// Route `r` exists and belongs to tenant `t`.
    pub open spec fn owns_route(self, t: Seq<char>, r: Seq<char>) -> bool {
        exists|i: int|
            0 <= i < self.routes.len() && (#[trigger] self.routes[i]).id == r
                && self.routes[i].tenant_id == t
    }

    /// Some route has the identifier `r`, whoever owns it.
    pub open spec fn route_id_taken(self, r: Seq<char>) -> bool {
        exists|i: int| 0 <= i < self.routes.len() && (#[trigger] self.routes[i]).id == r
    }

    /// Webhook `w` routes a repository whose stored (case-folded) name is `name`.
    pub open spec fn has_repo(self, w: Seq<char>, name: Seq<char>) -> bool {
        exists|i: int|
            0 <= i < self.routes.len() && (#[trigger] self.routes[i]).webhook_id == w
                && self.routes[i].repo_name == name
    }

    /// How many webhooks tenant `t` holds.
    pub open spec fn webhook_count(self, t: Seq<char>) -> nat {
        count_owned(self.webhooks, t)
    }

    /// The registry with tenant `t` registered at `now`, if it was not yet.
    pub open spec fn with_tenant(self, t: Seq<char>, now: nat) -> RegistryModel {
        if self.has_tenant(t) {
            self
        } else {
            RegistryModel {
                tenants: self.tenants.push(TenantModel { id: t, registered_at: now }),
                ..self
            }
        }
    }

    /// The registry with a new webhook appended.
    pub open spec fn with_webhook(self, w: WebhookModel) -> RegistryModel {
        RegistryModel { webhooks: self.webhooks.push(w), ..self }
    }

    /// The registry without webhook `id` of tenant `t` and without the routes under it.
    pub open spec fn without_webhook(self, t: Seq<char>, id: Seq<char>) -> RegistryModel {
        RegistryModel {
            webhooks: self.webhooks.filter(|w: WebhookModel| !(w.id == id && w.tenant_id == t)),
            routes: self.routes.filter(|r: RouteModel| !(r.webhook_id == id && r.tenant_id == t)),
            ..self
        }
    }

    /// The registry without route `id` of tenant `t`.
    pub open spec fn without_route(self, t: Seq<char>, id: Seq<char>) -> RegistryModel {
        RegistryModel {
            routes: self.routes.filter(|r: RouteModel| !(r.id == id && r.tenant_id == t)),
            ..self
        }
    }

    /// The registry with webhook `id` of tenant `t` changed by `f`, every other record kept.
    pub open spec fn map_webhook(
        self,
        t: Seq<char>,
        id: Seq<char>,
        f: spec_fn(WebhookModel) -> WebhookModel,
    ) -> RegistryModel {
        RegistryModel {
            webhooks: self.webhooks.map_values(
                |w: WebhookModel|
                    if w.id == id && w.tenant_id == t {
                        f(w)
                    } else {
                        w
                    },
            ),
            ..self
        }
    }

    /// The registry with route `id` of tenant `t` changed by `f`, every other record kept.
    pub open spec fn map_route(
        self,
        t: Seq<char>,
        id: Seq<char>,
        f: spec_fn(RouteModel) -> RouteModel,
    ) -> RegistryModel {
        RegistryModel {
            routes: self.routes.map_values(
                |r: RouteModel|
                    if r.id == id && r.tenant_id == t {
                        f(r)
                    } else {
                        r
                    },
            ),
            ..self
        }
    }

    /// The registry with a new route appended.
    pub open spec fn with_route(self, r: RouteModel) -> RegistryModel {
        RegistryModel { routes: self.routes.push(r), ..self }
    }

    /// The invariants of the tables.
    pub open spec fn wf(self) -> bool {
        &&& forall|i: int, j: int|
            0 <= i < j < self.tenants.len() ==> (#[trigger] self.tenants[i]).id
                != (#[trigger] self.tenants[j]).id
        &&& forall|i: int, j: int|
            0 <= i < j < self.webhooks.len() ==> (#[trigger] self.webhooks[i]).id
                != (#[trigger] self.webhooks[j]).id
        &&& forall|i: int|
            0 <= i < self.webhooks.len() ==> self.has_tenant((#[trigger] self.webhooks[i]).tenant_id)
        &&& forall|t: Seq<char>| #[trigger] count_owned(self.webhooks, t) <= self.max_webhooks
        &&& forall|i: int, j: int|
            0 <= i < j < self.routes.len() ==> (#[trigger] self.routes[i]).id
                != (#[trigger] self.routes[j]).id
        &&& forall|i: int, j: int|
            0 <= i < j < self.routes.len() && (#[trigger] self.routes[i]).webhook_id
                == (#[trigger] self.routes[j]).webhook_id ==> self.routes[i].repo_name
                != self.routes[j].repo_name
        &&& forall|i: int|
            0 <= i < self.routes.len() ==> self.owns_webhook(
                (#[trigger] self.routes[i]).tenant_id,
                self.routes[i].webhook_id,
            )
        &&& forall|i: int| 0 <= i < self.routes.len() ==> events_ok((#[trigger] self.routes[i]).events)
        &&& forall|i: int|
            0 <= i < self.routes.len() ==> lower_of((#[trigger] self.routes[i]).repo_name)
                == self.routes[i].repo_name
    }
}

/// The record of a webhook just created by `actor` at `now`.
pub open spec fn fresh_webhook(
    id: Seq<char>,
    t: Seq<char>,
    comment: Seq<char>,
    secret: Seq<char>,
    broken: bool,
    actor: Seq<char>,
    now: nat,
) -> WebhookModel {
    WebhookModel {
        id,
        tenant_id: t,
        comment,
        secret,
        broken,
        created_by: actor,
        last_updated_by: actor,
        created_at: now,
        last_updated_at: now,
    }
}

/// Registering a tenant makes it registered, and registering it again changes nothing.
pub proof fn lemma_with_tenant(m: RegistryModel, t: Seq<char>, now: nat, later: nat)
    ensures
        m.with_tenant(t, now).has_tenant(t),
        m.with_tenant(t, now).with_tenant(t, later) == m.with_tenant(t, now),
{
    if !m.has_tenant(t) {
        let m2 = m.with_tenant(t, now);
        assert(m2.tenants[m.tenants.len() as int].id == t);
    }
}

/// A webhook after an edit by `actor` at `now`: the fields that the patch holds are replaced,
/// and the edit is stamped whatever it holds.
pub open spec fn patched(w: WebhookModel, p: WebhookPatch, actor: Seq<char>, now: nat) -> WebhookModel {
    WebhookModel {
        comment: match p.comment {
            Some(c) => c@,
            None => w.comment,
        },
        broken: match p.broken {
            Some(b) => b,
            None => w.broken,
        },
        secret: match p.secret {
            Some(s) => s@,
            None => w.secret,
        },
        last_updated_by: actor,
        last_updated_at: now,
        ..w
    }
}

/// Filtering out the one element that fails the predicate is removing it.
pub proof fn lemma_filter_one<A>(s: Seq<A>, p: spec_fn(A) -> bool, i: int)
    requires
        0 <= i < s.len(),
        !p(s[i]),
        forall|k: int| 0 <= k < s.len() && k != i ==> p(#[trigger] s[k]),
    ensures
        s.filter(p) == s.remove(i),
    decreases s.len(),
{
    reveal(Seq::filter);
    if i == s.len() - 1 {
        lemma_filter_none(s.drop_last(), p);
        assert(s.remove(i) =~= s.drop_last());
    } else {
        lemma_filter_one(s.drop_last(), p, i);
        assert(s.remove(i) =~= s.drop_last().remove(i).push(s.last()));
    }
}

/// Filtering a sequence whose elements all pass keeps it whole.
pub proof fn lemma_filter_none<A>(s: Seq<A>, p: spec_fn(A) -> bool)
    requires
        forall|k: int| 0 <= k < s.len() ==> p(#[trigger] s[k]),
    ensures
        s.filter(p) == s,
    decreases s.len(),
{
    reveal(Seq::filter);
    if s.len() > 0 {
        lemma_filter_none(s.drop_last(), p);
        assert(s.drop_last().push(s.last()) =~= s);
    }
}

/// One more step of a filter over a prefix.
pub proof fn lemma_filter_step<A>(s: Seq<A>, p: spec_fn(A) -> bool, j: int)
    requires
        0 <= j < s.len(),
    ensures
        s.take(j + 1).filter(p) == if p(s[j]) {
            s.take(j).filter(p).push(s[j])
        } else {
            s.take(j).filter(p)
        },
{
    reveal(Seq::filter);
    assert(s.take(j + 1).drop_last() =~= s.take(j));
}

/// Removing a route keeps the tables well formed.
pub proof fn lemma_remove_route_wf(m: RegistryModel, i: int)
    requires
        m.wf(),
        0 <= i < m.routes.len(),
    ensures
        (RegistryModel { routes: m.routes.remove(i), ..m }).wf(),
{
    let m2 = RegistryModel { routes: m.routes.remove(i), ..m };
    assert(m2.webhooks == m.webhooks && m2.tenants == m.tenants);
    assert forall|t: Seq<char>| #[trigger] count_owned(m2.webhooks, t) <= m2.max_webhooks by {
        assert(count_owned(m.webhooks, t) <= m.max_webhooks);
    }
    assert forall|a: int| 0 <= a < m2.webhooks.len() implies m2.has_tenant(
        (#[trigger] m2.webhooks[a]).tenant_id,
    ) by {
        assert(m.has_tenant(m.webhooks[a].tenant_id));
    }
    assert forall|a: int| 0 <= a < m2.routes.len() implies #[trigger] m2.routes[a] == m.routes[
        if a < i {
            a
        } else {
            a + 1
        }
    ] by {}
    assert forall|a: int, b: int| 0 <= a < b < m2.routes.len() implies (#[trigger] m2.routes[a]).id
        != (#[trigger] m2.routes[b]).id by {
        let a1 = if a < i { a } else { a + 1 };
        let b1 = if b < i { b } else { b + 1 };
        assert(m.routes[a1].id != m.routes[b1].id);
    }
    assert forall|a: int, b: int|
        0 <= a < b < m2.routes.len() && (#[trigger] m2.routes[a]).webhook_id
            == (#[trigger] m2.routes[b]).webhook_id implies m2.routes[a].repo_name
        != m2.routes[b].repo_name by {
        let a1 = if a < i { a } else { a + 1 };
        let b1 = if b < i { b } else { b + 1 };
        assert(m.routes[a1].webhook_id == m.routes[b1].webhook_id);
    }
    assert forall|a: int| 0 <= a < m2.routes.len() implies m2.owns_webhook(
        (#[trigger] m2.routes[a]).tenant_id,
        m2.routes[a].webhook_id,
    ) && events_ok(m2.routes[a].events) by {
        let a1 = if a < i { a } else { a + 1 };
        assert(m2.routes[a] == m.routes[a1]);
        assert(lower_of(m.routes[a1].repo_name) == m.routes[a1].repo_name);
        assert(m.owns_webhook(m.routes[a1].tenant_id, m.routes[a1].webhook_id));
        let k = choose|k: int|
            0 <= k < m.webhooks.len() && (#[trigger] m.webhooks[k]).id == m.routes[a1].webhook_id
                && m.webhooks[k].tenant_id == m.routes[a1].tenant_id;
        assert(m2.webhooks[k] == m.webhooks[k]);
        assert(events_ok(m.routes[a1].events));
    }
}

/// Removing a webhook that no route refers to keeps the tables well formed.
pub proof fn lemma_remove_webhook_wf(m: RegistryModel, i: int)
    requires
        m.wf(),
        0 <= i < m.webhooks.len(),
        forall|k: int|
            0 <= k < m.routes.len() ==> !((#[trigger] m.routes[k]).webhook_id == m.webhooks[i].id
                && m.routes[k].tenant_id == m.webhooks[i].tenant_id),
    ensures
        (RegistryModel { webhooks: m.webhooks.remove(i), ..m }).wf(),
{
    let m2 = RegistryModel { webhooks: m.webhooks.remove(i), ..m };
    assert forall|a: int| 0 <= a < m2.webhooks.len() implies #[trigger] m2.webhooks[a]
        == m.webhooks[
        if a < i {
            a
        } else {
            a + 1
        }
    ] by {}
    assert forall|a: int, b: int| 0 <= a < b < m2.webhooks.len() implies (
    #[trigger] m2.webhooks[a]).id != (#[trigger] m2.webhooks[b]).id by {
        let a1 = if a < i { a } else { a + 1 };
        let b1 = if b < i { b } else { b + 1 };
        assert(m.webhooks[a1].id != m.webhooks[b1].id);
    }
    assert forall|a: int| 0 <= a < m2.webhooks.len() implies m2.has_tenant(
        (#[trigger] m2.webhooks[a]).tenant_id,
    ) by {
        let a1 = if a < i { a } else { a + 1 };
        assert(m2.webhooks[a] == m.webhooks[a1]);
        assert(m.has_tenant(m.webhooks[a1].tenant_id));
        let k = choose|k: int| 0 <= k < m.tenants.len() && (#[trigger] m.tenants[k]).id == m.webhooks[a1].tenant_id;
        assert(m2.tenants[k] == m.tenants[k]);
    }
    assert forall|t: Seq<char>| #[trigger] count_owned(m2.webhooks, t) <= m2.max_webhooks by {
        lemma_count_remove(m.webhooks, i, t);
        assert(count_owned(m.webhooks, t) <= m.max_webhooks);
    }
    assert forall|a: int| 0 <= a < m2.routes.len() implies m2.owns_webhook(
        (#[trigger] m2.routes[a]).tenant_id,
        m2.routes[a].webhook_id,
    ) by {
        assert(m.owns_webhook(m.routes[a].tenant_id, m.routes[a].webhook_id));
        let k = choose|k: int|
            0 <= k < m.webhooks.len() && (#[trigger] m.webhooks[k]).id == m.routes[a].webhook_id
                && m.webhooks[k].tenant_id == m.routes[a].tenant_id;
        assert(k != i);
        let k2 = if k < i { k } else { k - 1 };
        assert(m2.webhooks[k2] == m.webhooks[k]);
    }
}

/// The stored name of repository `owner/name`: the two joined by a slash, then case-folded.
pub open spec fn repo_key(owner: Seq<char>, name: Seq<char>) -> Seq<char> {
    lower_of(owner + seq!['/'] + name)
}

/// The record of a route just created by `actor`, with no event filter.
pub open spec fn fresh_route(
    id: Seq<char>,
    w: Seq<char>,
    t: Seq<char>,
    repo_name: Seq<char>,
    channel_id: Seq<char>,
    actor: Seq<char>,
) -> RouteModel {
    RouteModel {
        id,
        webhook_id: w,
        tenant_id: t,
        repo_name,
        channel_id,
        events: Seq::empty(),
        created_by: actor,
        last_updated_by: actor,
    }
}

/// Changing what a route sends, and not what identifies it, keeps the tables well formed.
pub proof fn lemma_map_route_wf(
    m: RegistryModel,
    t: Seq<char>,
    id: Seq<char>,
    f: spec_fn(RouteModel) -> RouteModel,
)
    requires
        m.wf(),
        forall|r: RouteModel| #[trigger] f(r).id == r.id && f(r).webhook_id == r.webhook_id
            && f(r).tenant_id == r.tenant_id && f(r).repo_name == r.repo_name,
        forall|r: RouteModel| events_ok(r.events) ==> events_ok(#[trigger] f(r).events),
    ensures
        m.map_route(t, id, f).wf(),
{
    let m2 = m.map_route(t, id, f);
    assert(m2.webhooks == m.webhooks && m2.tenants == m.tenants);
    assert forall|t2: Seq<char>| #[trigger] count_owned(m2.webhooks, t2) <= m2.max_webhooks by {
        assert(count_owned(m.webhooks, t2) <= m.max_webhooks);
    }
    assert forall|a: int| 0 <= a < m2.webhooks.len() implies m2.has_tenant(
        (#[trigger] m2.webhooks[a]).tenant_id,
    ) by {
        assert(m.has_tenant(m.webhooks[a].tenant_id));
    }
    assert forall|a: int, b: int| 0 <= a < b < m2.routes.len() implies (#[trigger] m2.routes[a]).id
        != (#[trigger] m2.routes[b]).id by {
        assert(m.routes[a].id != m.routes[b].id);
    }
    assert forall|a: int, b: int|
        0 <= a < b < m2.routes.len() && (#[trigger] m2.routes[a]).webhook_id
            == (#[trigger] m2.routes[b]).webhook_id implies m2.routes[a].repo_name
        != m2.routes[b].repo_name by {
        assert(m.routes[a].webhook_id == m.routes[b].webhook_id);
    }
    assert forall|a: int| 0 <= a < m2.routes.len() implies m2.owns_webhook(
        (#[trigger] m2.routes[a]).tenant_id,
        m2.routes[a].webhook_id,
    ) && events_ok(m2.routes[a].events) && lower_of(m2.routes[a].repo_name) == m2.routes[a].repo_name by {
        let r = m.routes[a];
        assert(m2.routes[a] == if r.id == id && r.tenant_id == t {
            f(r)
        } else {
            r
        });
        assert(f(r).id == r.id);
        assert(lower_of(r.repo_name) == r.repo_name);
        assert(events_ok(f(r).events));
        assert(m.owns_webhook(r.tenant_id, r.webhook_id));
        let k = choose|k: int|
            0 <= k < m.webhooks.len() && (#[trigger] m.webhooks[k]).id == r.webhook_id
                && m.webhooks[k].tenant_id == r.tenant_id;
        assert(m2.webhooks[k] == m.webhooks[k]);
        assert(events_ok(r.events));
    }
}

/// The routes of webhook `w` of tenant `t`, in the order they were added.
pub open spec fn routes_of(m: RegistryModel, t: Seq<char>, w: Seq<char>) -> Seq<RouteModel> {
    m.routes.filter(|r: RouteModel| r.webhook_id == w && r.tenant_id == t)
}

/// The webhooks of tenant `t`, in the order they were added.
pub open spec fn webhooks_of(m: RegistryModel, t: Seq<char>) -> Seq<WebhookModel> {
    m.webhooks.filter(|x: WebhookModel| x.tenant_id == t)
}

/// The snapshot entry of a route.
pub open spec fn entry_of(r: RouteModel) -> SnapshotRouteModel {
    SnapshotRouteModel { repo_name: r.repo_name, channel_id: r.channel_id, events: r.events }
}

/// Every event name of every entry is free of commas.
pub open spec fn entries_ok(es: Seq<SnapshotRouteModel>) -> bool {
    forall|k: int| 0 <= k < es.len() ==> events_ok(#[trigger] es[k].events)
}

/// The snapshot versions that an import reads.
pub open spec fn known_protocol(p: u64) -> bool {
    p == SNAPSHOT_PROTOCOL || p == LEGACY_SNAPSHOT_PROTOCOL
}

/// `after` holds the tables of `before` with the first `k` entries merged into the routes of
/// webhook `w`: the tenants, the webhooks and the routes of every other webhook as they were.
pub open spec fn merged_prefix(
    before: RegistryModel,
    after: RegistryModel,
    w: Seq<char>,
    es: Seq<SnapshotRouteModel>,
    k: int,
) -> bool {
    &&& after.tenants == before.tenants
    &&& after.webhooks == before.webhooks
    &&& after.max_webhooks == before.max_webhooks
    &&& route_table(after.routes, w) == merge(route_table(before.routes, w), es.take(k)).0
    &&& forall|w2: Seq<char>|
        w2 != w ==> #[trigger] route_table(after.routes, w2) == route_table(before.routes, w2)
}

/// The two records are the same route: identifier, owner, name and creator agree.
pub open spec fn same_identity(a: RouteModel, b: RouteModel) -> bool {
    &&& a.id == b.id
    &&& a.webhook_id == b.webhook_id
    &&& a.tenant_id == b.tenant_id
    &&& a.repo_name == b.repo_name
    &&& a.created_by == b.created_by
}

/// How the route list of `after` relates to that of `before` once entries with the names
/// `names` were upserted into webhook `w` of tenant `t` by `actor`, `inserted` of them as new
/// routes: every old route keeps its place and identity; one of `w` whose name is among
/// `names` is marked as changed by `actor`, any other is unchanged; the new routes follow,
/// each of `w` and `t`, created by `actor`, with an identifier drawn as tokens are.
pub open spec fn upserted(
    before: RegistryModel,
    after: RegistryModel,
    t: Seq<char>,
    w: Seq<char>,
    names: Set<Seq<char>>,
    actor: Seq<char>,
    inserted: nat,
) -> bool {
    let n = before.routes.len();
    &&& after.routes.len() == n + inserted
    &&& forall|i: int| 0 <= i < n ==> same_identity(#[trigger] before.routes[i], after.routes[i])
    &&& forall|i: int|
        0 <= i < n && ((#[trigger] before.routes[i]).webhook_id != w || !names.contains(
            before.routes[i].repo_name,
        )) ==> after.routes[i] == before.routes[i]
    &&& forall|i: int|
        0 <= i < n && (#[trigger] before.routes[i]).webhook_id == w && names.contains(
            before.routes[i].repo_name,
        ) ==> after.routes[i].last_updated_by == actor
    &&& forall|i: int|
        n <= i < after.routes.len() ==> (#[trigger] after.routes[i]).webhook_id == w
            && after.routes[i].tenant_id == t && after.routes[i].created_by == actor
            && after.routes[i].last_updated_by == actor && is_id(after.routes[i].id, ID_LEN as nat)
}

/// What an import of entries `es` in a snapshot of version `protocol` into webhook `w` of
/// tenant `t` by `actor` at `now` does, from `old` to `new`, with result `r`: the tenant is
/// registered; `NotFound` if it has no such webhook; `ValidationError`, with nothing changed,
/// for an unknown version, an event name with a comma, or a name that is not case-folded;
/// otherwise every entry is merged in order, with the counts of the merge: an entry whose name
/// the webhook routes overwrites that route's channel and events, any other is added as a new
/// route. Each route of `w` then holds what the merged table gives for its name.
pub open spec fn import_outcome(
    old: RegistryModel,
    new: RegistryModel,
    t: Seq<char>,
    w: Seq<char>,
    protocol: u64,
    es: Seq<SnapshotRouteModel>,
    actor: Seq<char>,
    now: nat,
    r: Result<ImportSummary, RegistryError>,
) -> bool {
    let m = old.with_tenant(t, now);
    let merged = merge(route_table(m.routes, w), es);
    &&& r == Err::<ImportSummary, RegistryError>(RegistryError::NotFound) <==> !m.owns_webhook(t, w)
    &&& r == Err::<ImportSummary, RegistryError>(RegistryError::ValidationError) <==> m.owns_webhook(t, w)
        && !(known_protocol(protocol) && entries_ok(es) && names_folded(es))
    &&& r is Err ==> new == m && (r == Err::<ImportSummary, RegistryError>(RegistryError::NotFound) || r
        == Err::<ImportSummary, RegistryError>(RegistryError::ValidationError))
    &&& r matches Ok(sum) ==> merged_prefix(m, new, w, es, es.len() as int) && sum.inserted
        == merged.1 && sum.updated == merged.2 && upserted(m, new, t, w, entry_names(es), actor, merged.1)
    &&& r is Ok ==> forall|i: int|
        0 <= i < new.routes.len() && (#[trigger] new.routes[i]).webhook_id == w ==> route_table(
            new.routes,
            w,
        )[new.routes[i].repo_name] == (RouteContent {
            channel_id: new.routes[i].channel_id,
            events: new.routes[i].events,
        })
}

/// Every entry's name is its own case-folding.
pub open spec fn names_folded(es: Seq<SnapshotRouteModel>) -> bool {
    forall|k: int| 0 <= k < es.len() ==> lower_of(#[trigger] es[k].repo_name) == es[k].repo_name
}

/// The entries with their repository names case-folded.
pub open spec fn folded(es: Seq<SnapshotRouteModel>) -> Seq<SnapshotRouteModel> {
    es.map_values(|e: SnapshotRouteModel| SnapshotRouteModel { repo_name: lower_of(e.repo_name), ..e })
}

/// Adding a webhook adds one to its tenant's count and leaves the others.
pub proof fn lemma_count_push(ws: Seq<WebhookModel>, w: WebhookModel, t: Seq<char>)
    ensures
        count_owned(ws.push(w), t) == count_owned(ws, t) + if w.tenant_id == t {
            1nat
        } else {
            0nat
        },
{
    assert(ws.push(w).drop_last() =~= ws);
}

/// Removing a webhook takes one from its tenant's count and leaves the others.
pub proof fn lemma_count_remove(ws: Seq<WebhookModel>, i: int, t: Seq<char>)
    requires
        0 <= i < ws.len(),
    ensures
        count_owned(ws.remove(i), t) + (if ws[i].tenant_id == t {
            1nat
        } else {
            0nat
        }) == count_owned(ws, t),
    decreases ws.len(),
{
    if i == ws.len() - 1 {
        assert(ws.remove(i) =~= ws.drop_last());
    } else {
        lemma_count_remove(ws.drop_last(), i, t);
        assert(ws.remove(i).drop_last() =~= ws.drop_last().remove(i));
        assert(ws.remove(i).last() == ws.last());
    }
}

/// Counts depend on the owners alone.
pub proof fn lemma_count_same_owners(a: Seq<WebhookModel>, b: Seq<WebhookModel>, t: Seq<char>)
    requires
        a.len() == b.len(),
        forall|k: int| 0 <= k < a.len() ==> (#[trigger] a[k]).tenant_id == b[k].tenant_id,
    ensures
        count_owned(a, t) == count_owned(b, t),
    decreases a.len(),
{
    if a.len() > 0 {
        lemma_count_same_owners(a.drop_last(), b.drop_last(), t);
    }
}

} // verus!
