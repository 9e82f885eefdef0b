use vstd::prelude::*;
use vstd::string::*;

use crate::merge::{
    entry_names, lemma_entry_names_last, lemma_table_value, lemma_merge_dom, lemma_table_dom, lemma_table_push, lemma_table_update, merge, names_unique,
    route_table, RouteContent,
};
use crate::model::{
    count_owned, entries_ok, entry_of, events_ok, fresh_route, fresh_webhook, folded, import_outcome,
    known_protocol, lemma_count_push, lemma_count_same_owners, lemma_filter_none, lemma_filter_one,
    lemma_filter_step, lemma_map_route_wf, lemma_remove_route_wf, lemma_remove_webhook_wf,
    lemma_with_tenant, merged_prefix, names_folded, patched, same_identity, upserted, repo_key, routes_of, webhooks_of, RegistryModel,
};
use crate::text::{
    contains_comma, is_id, is_token, lemma_words_no_comma, lower_of, lowercase, random_token, same_text, split_words,
    unused_token, words,
};
use crate::types::{
    copy_strings, entries_of, views_of, ImportSummary, NewWebhook, RegistryError, Route, RouteModel,
    Snapshot, SnapshotRoute, SnapshotRouteModel, Tenant, Webhook, WebhookListing, WebhookModel,
    WebhookPatch,
    LEGACY_SNAPSHOT_PROTOCOL, SNAPSHOT_PROTOCOL,
};

verus! {

/// Length of a webhook or route identifier.
pub const ID_LEN: usize = 32;

/// Length of a webhook secret.
pub const SECRET_LEN: usize = 256;

/// How many random identifiers are drawn before one that no record has is built instead.
pub const ID_ATTEMPTS: usize = 3;

/// The quota that the service runs with unless configured otherwise.
pub const DEFAULT_MAX_WEBHOOKS: u64 = 5;

/// The registry: tenants, their webhooks, and the routes under each webhook.
pub struct Registry {
    tenants: Vec<Tenant>,
    webhooks: Vec<Webhook>,
    routes: Vec<Route>,
    max_webhooks: u64,
}

impl View for Registry {
    type V = RegistryModel;

    closed spec fn view(&self) -> RegistryModel {
        RegistryModel {
            tenants: self.tenants@.map_values(|t: Tenant| t@),
            webhooks: self.webhooks@.map_values(|w: Webhook| w@),
            routes: self.routes@.map_values(|r: Route| r@),
            max_webhooks: self.max_webhooks as nat,
        }
    }
}

impl Registry {
    /// An empty registry that lets each tenant hold up to `max_webhooks` webhooks.
    pub fn new(max_webhooks: u64) -> (r: Registry)
        ensures
            r@.wf(),
            r@.tenants.len() == 0,
            r@.webhooks.len() == 0,
            r@.routes.len() == 0,
            r@.max_webhooks == max_webhooks,
    {
        let r = Registry {
            tenants: Vec::new(),
            webhooks: Vec::new(),
            routes: Vec::new(),
            max_webhooks,
        };
        proof {
            assert forall|t: Seq<char>| #[trigger] count_owned(r@.webhooks, t) <= r@.max_webhooks by {
                assert(r@.webhooks.len() == 0);
            }
        }
        r
    }

    /// Whether tenant `tenant_id` is registered.
    pub fn has_tenant(&self, tenant_id: &str) -> (r: bool)
        ensures
            r == self@.has_tenant(tenant_id@),
    {
        let mut i: usize = 0;
        while i < self.tenants.len()
            invariant
                i <= self.tenants@.len(),
                forall|k: int| 0 <= k < i ==> (#[trigger] self@.tenants[k]).id != tenant_id@,
            decreases self.tenants@.len() - i,
        {
            if same_text(self.tenants[i].id.as_str(), tenant_id) {
                assert(self@.tenants[i as int].id == tenant_id@);
                return true;
            }
            i = i + 1;
        }
        false
    }

    /// Registers tenant `tenant_id` at time `now` unless it is registered already.
    pub fn ensure_tenant(&mut self, tenant_id: &str, now: u64)
        requires
            old(self)@.wf(),
        ensures
            final(self)@ == old(self)@.with_tenant(tenant_id@, now as nat),
            final(self)@.wf(),
    {
        if !self.has_tenant(tenant_id) {
            let ghost m = self@;
            self.tenants.push(Tenant { id: String::from_str(tenant_id), registered_at: now });
            proof {
                let m2 = m.with_tenant(tenant_id@, now as nat);
                assert(self@.tenants =~= m2.tenants);
                assert(self@.webhooks =~= m2.webhooks);
                assert(self@.routes =~= m2.routes);
                assert forall|i: int| 0 <= i < self@.webhooks.len() implies self@.has_tenant(
                    (#[trigger] self@.webhooks[i]).tenant_id,
                ) by {
                    let k = choose|k: int|
                        0 <= k < m.tenants.len() && (#[trigger] m.tenants[k]).id
                            == m.webhooks[i].tenant_id;
                    assert(self@.tenants[k] == m.tenants[k]);
                }
            }
        }
    }

    /// How many webhooks tenant `tenant_id` holds.
    pub fn webhook_count(&self, tenant_id: &str) -> (r: u64)
        requires
            self@.wf(),
        ensures
            r == self@.webhook_count(tenant_id@),
    {
        let mut n: u64 = 0;
        let mut i: usize = 0;
        while i < self.webhooks.len()
            invariant
                self@.wf(),
                i <= self.webhooks@.len(),
                n == count_owned(self@.webhooks.take(i as int), tenant_id@),
                n <= i,
            decreases self.webhooks@.len() - i,
        {
            proof {
                assert(self@.webhooks.take(i + 1).drop_last() =~= self@.webhooks.take(i as int));
            }
            if same_text(self.webhooks[i].tenant_id.as_str(), tenant_id) {
                proof {
                    assert(count_owned(self@.webhooks, tenant_id@) <= self@.max_webhooks);
                }
                n = n + 1;
            }
            i = i + 1;
        }
        assert(self@.webhooks.take(i as int) =~= self@.webhooks);
        n
    }

    /// The position of webhook `id` if it belongs to tenant `tenant_id`.
    fn find_webhook(&self, tenant_id: &str, id: &str) -> (r: Option<usize>)
        ensures
            r matches Some(i) ==> i < self@.webhooks.len() && self@.webhooks[i as int].id == id@
                && self@.webhooks[i as int].tenant_id == tenant_id@,
            r is None ==> !self@.owns_webhook(tenant_id@, id@),
    {
        let mut i: usize = 0;
        while i < self.webhooks.len()
            invariant
                i <= self.webhooks@.len(),
                forall|k: int|
                    0 <= k < i ==> !((#[trigger] self@.webhooks[k]).id == id@
                        && self@.webhooks[k].tenant_id == tenant_id@),
            decreases self.webhooks@.len() - i,
        {
            if same_text(self.webhooks[i].id.as_str(), id) && same_text(
                self.webhooks[i].tenant_id.as_str(),
                tenant_id,
            ) {
                return Some(i);
            }
            i = i + 1;
        }
        None
    }

    /// Whether some webhook, of any tenant, has the identifier `id`.
    fn webhook_id_taken(&self, id: &str) -> (r: bool)
        ensures
            r == self@.webhook_id_taken(id@),
    {
        let mut i: usize = 0;
        while i < self.webhooks.len()
            invariant
                i <= self.webhooks@.len(),
                forall|k: int| 0 <= k < i ==> (#[trigger] self@.webhooks[k]).id != id@,
            decreases self.webhooks@.len() - i,
        {
            if same_text(self.webhooks[i].id.as_str(), id) {
                assert(self@.webhooks[i as int].id == id@);
                return true;
            }
            i = i + 1;
        }
        false
    }

    /// Registers the tenant if needed, then adds a webhook with the given identifier and secret,
    /// unless the tenant is at its quota or the identifier is taken.
    pub fn insert_webhook(
        &mut self,
        tenant_id: &str,
        comment: String,
        broken: bool,
        id: String,
        secret: String,
        actor: &str,
        now: u64,
    ) -> (r: Result<(), RegistryError>)
        requires
            old(self)@.wf(),
        ensures
            final(self)@.wf(),
            ({
                let m = old(self)@.with_tenant(tenant_id@, now as nat);
                &&& m.webhook_count(tenant_id@) >= m.max_webhooks ==> r == Err::<(), RegistryError>(
                    RegistryError::QuotaExceeded,
                ) && final(self)@ == m
                &&& m.webhook_count(tenant_id@) < m.max_webhooks && m.webhook_id_taken(id@) ==> r
                    == Err::<(), RegistryError>(RegistryError::StoreError) && final(self)@ == m
                &&& m.webhook_count(tenant_id@) < m.max_webhooks && !m.webhook_id_taken(id@) ==> r
                    is Ok && final(self)@ == m.with_webhook(
                    fresh_webhook(id@, tenant_id@, comment@, secret@, broken, actor@, now as nat),
                )
            }),
    {
        self.ensure_tenant(tenant_id, now);
        if self.webhook_count(tenant_id) >= self.max_webhooks {
            return Err(RegistryError::QuotaExceeded);
        }
        if self.webhook_id_taken(id.as_str()) {
            return Err(RegistryError::StoreError);
        }
        let ghost m = self@;
        let w = Webhook {
            id,
            tenant_id: String::from_str(tenant_id),
            comment,
            secret,
            broken,
            created_by: String::from_str(actor),
            last_updated_by: String::from_str(actor),
            created_at: now,
            last_updated_at: now,
        };
        self.webhooks.push(w);
        proof {
            lemma_with_tenant(old(self)@, tenant_id@, now as nat, now as nat);
            assert(self@.webhooks =~= m.webhooks.push(w@));
            assert(self@.tenants =~= m.tenants);
            assert(self@.routes =~= m.routes);
            assert forall|t: Seq<char>| #[trigger] count_owned(self@.webhooks, t) <= self@.max_webhooks by {
                lemma_count_push(m.webhooks, w@, t);
                assert(count_owned(m.webhooks, t) <= m.max_webhooks);
            }
            assert forall|i: int| 0 <= i < self@.routes.len() implies self@.owns_webhook(
                (#[trigger] self@.routes[i]).tenant_id,
                self@.routes[i].webhook_id,
            ) by {
                let k = choose|k: int|
                    0 <= k < m.webhooks.len() && (#[trigger] m.webhooks[k]).id == m.routes[i].webhook_id
                        && m.webhooks[k].tenant_id == m.routes[i].tenant_id;
                assert(self@.webhooks[k] == m.webhooks[k]);
            }
            assert forall|i: int| 0 <= i < self@.webhooks.len() implies self@.has_tenant(
                (#[trigger] self@.webhooks[i]).tenant_id,
            ) by {
                if i < m.webhooks.len() {
                    assert(self@.webhooks[i] == m.webhooks[i]);
                } else {
                    assert(m.has_tenant(tenant_id@));
                }
            }
        }
        Ok(())
    }

    /// The identifiers of all webhooks, in order.
    fn webhook_ids(&self) -> (r: Vec<String>)
        ensures
            r@.len() == self@.webhooks.len(),
            forall|k: int| 0 <= k < r@.len() ==> (#[trigger] r@[k])@ == self@.webhooks[k].id,
    {
        let mut r: Vec<String> = Vec::new();
        let mut i: usize = 0;
        while i < self.webhooks.len()
            invariant
                i <= self.webhooks@.len(),
                r@.len() == i,
                forall|k: int| 0 <= k < i ==> (#[trigger] r@[k])@ == self@.webhooks[k].id,
            decreases self.webhooks@.len() - i,
        {
            r.push(self.webhooks[i].id.clone());
            i = i + 1;
        }
        r
    }

    /// The identifiers of all routes, in order.
    fn route_ids(&self) -> (r: Vec<String>)
        ensures
            r@.len() == self@.routes.len(),
            forall|k: int| 0 <= k < r@.len() ==> (#[trigger] r@[k])@ == self@.routes[k].id,
    {
        let mut r: Vec<String> = Vec::new();
        let mut i: usize = 0;
        while i < self.routes.len()
            invariant
                i <= self.routes@.len(),
                r@.len() == i,
                forall|k: int| 0 <= k < i ==> (#[trigger] r@[k])@ == self@.routes[k].id,
            decreases self.routes@.len() - i,
        {
            r.push(self.routes[i].id.clone());
            i = i + 1;
        }
        r
    }

    /// A random route identifier that no route has.
    fn unused_route_id(&self) -> (r: String)
        ensures
            is_id(r@, ID_LEN as nat),
            !self@.route_id_taken(r@),
            (forall|i: int| 0 <= i < self@.routes.len() ==> !is_token(#[trigger] self@.routes[i].id, ID_LEN as nat))
                ==> r@.len() == ID_LEN,
    {
        let ids = self.route_ids();
        let id = unused_token(&ids, ID_LEN, ID_ATTEMPTS);
        proof {
            if self@.route_id_taken(id@) {
                let i = choose|i: int| 0 <= i < self@.routes.len() && (#[trigger] self@.routes[i]).id == id@;
                assert(ids@[i]@ == id@);
            }
            if forall|i: int| 0 <= i < self@.routes.len() ==> !is_token(#[trigger] self@.routes[i].id, ID_LEN as nat) {
                assert forall|k: int| 0 <= k < ids@.len() implies !is_token(#[trigger] ids@[k]@, ID_LEN as nat) by {
                    assert(ids@[k]@ == self@.routes[k].id);
                }
            }
        }
        id
    }

    /// Registers the tenant if needed and creates a webhook for it, unless it is at its quota,
    /// with a random identifier that no webhook has and a random secret; both are returned so
    /// that the secret can be handed over once. The identifier has `ID_LEN` characters unless
    /// every draw of that length was taken, when it is made longer to differ from all of them.
    pub fn create_webhook(
        &mut self,
        tenant_id: &str,
        comment: String,
        broken: Option<bool>,
        actor: &str,
        now: u64,
    ) -> (r: Result<NewWebhook, RegistryError>)
        requires
            old(self)@.wf(),
        ensures
            final(self)@.wf(),
            ({
                let m = old(self)@.with_tenant(tenant_id@, now as nat);
                let b = match broken {
                    Some(b) => b,
                    None => false,
                };
                &&& r is Err <==> m.webhook_count(tenant_id@) >= m.max_webhooks
                &&& r is Err ==> r == Err::<NewWebhook, RegistryError>(RegistryError::QuotaExceeded)
                    && final(self)@ == m
                &&& r matches Ok(nw) ==> is_id(nw.id@, ID_LEN as nat) && is_token(nw.secret@, SECRET_LEN as nat)
                    && !m.webhook_id_taken(nw.id@) && final(self)@ == m.with_webhook(
                    fresh_webhook(nw.id@, tenant_id@, comment@, nw.secret@, b, actor@, now as nat),
                )
                &&& r matches Ok(nw) ==> ((forall|i: int|
                    0 <= i < m.webhooks.len() ==> !is_token(#[trigger] m.webhooks[i].id, ID_LEN as nat))
                    ==> nw.id@.len() == ID_LEN)
            }),
    {
        let b = match broken {
            Some(b) => b,
            None => false,
        };
        let ids = self.webhook_ids();
        let id = unused_token(&ids, ID_LEN, ID_ATTEMPTS);
        let secret = random_token(SECRET_LEN);
        proof {
            let m = old(self)@.with_tenant(tenant_id@, now as nat);
            assert(m.webhooks == old(self)@.webhooks);
            if m.webhook_id_taken(id@) {
                let i = choose|i: int| 0 <= i < m.webhooks.len() && (#[trigger] m.webhooks[i]).id == id@;
                assert(ids@[i]@ == id@);
            }
            if forall|i: int| 0 <= i < m.webhooks.len() ==> !is_token(#[trigger] m.webhooks[i].id, ID_LEN as nat) {
                assert forall|k: int| 0 <= k < ids@.len() implies !is_token(#[trigger] ids@[k]@, ID_LEN as nat) by {
                    assert(ids@[k]@ == m.webhooks[k].id);
                }
            }
        }
        match self.insert_webhook(tenant_id, comment, b, id.clone(), secret.clone(), actor, now) {
            Ok(()) => Ok(NewWebhook { id, secret }),
            Err(e) => Err(e),
        }
    }

    /// The position of route `id` if it belongs to tenant `tenant_id`.
    fn find_route(&self, tenant_id: &str, id: &str) -> (r: Option<usize>)
        ensures
            r matches Some(i) ==> i < self@.routes.len() && self@.routes[i as int].id == id@
                && self@.routes[i as int].tenant_id == tenant_id@,
            r is None ==> !self@.owns_route(tenant_id@, id@),
    {
        let mut i: usize = 0;
        while i < self.routes.len()
            invariant
                i <= self.routes@.len(),
                forall|k: int|
                    0 <= k < i ==> !((#[trigger] self@.routes[k]).id == id@
                        && self@.routes[k].tenant_id == tenant_id@),
            decreases self.routes@.len() - i,
        {
            if same_text(self.routes[i].id.as_str(), id) && same_text(
                self.routes[i].tenant_id.as_str(),
                tenant_id,
            ) {
                return Some(i);
            }
            i = i + 1;
        }
        None
    }

    /// Registers the tenant if needed, then changes the fields of webhook `id` that the patch
    /// holds and stamps the edit, all at once; `NotFound` if the tenant has no such webhook.
    pub fn edit_webhook(
        &mut self,
        tenant_id: &str,
        id: &str,
        patch: WebhookPatch,
        actor: &str,
        now: u64,
    ) -> (r: Result<(), RegistryError>)
        requires
            old(self)@.wf(),
        ensures
            final(self)@.wf(),
            ({
                let m = old(self)@.with_tenant(tenant_id@, now as nat);
                &&& r is Ok <==> m.owns_webhook(tenant_id@, id@)
                &&& r is Err ==> r == Err::<(), RegistryError>(RegistryError::NotFound) && final(self)@ == m
                &&& r is Ok ==> final(self)@ == m.map_webhook(
                    tenant_id@,
                    id@,
                    |w: WebhookModel| patched(w, patch, actor@, now as nat),
                )
            }),
    {
        self.ensure_tenant(tenant_id, now);
        let ghost m = self@;
        let i = match self.find_webhook(tenant_id, id) {
            Some(i) => i,
            None => {
                return Err(RegistryError::NotFound);
            },
        };
        let ghost target = patched(m.webhooks[i as int], patch, actor@, now as nat);
        let WebhookPatch { comment, broken, secret } = patch;
        match comment {
            Some(c) => {
                self.webhooks[i].comment = c;
            },
            None => {},
        }
        match broken {
            Some(b) => {
                self.webhooks[i].broken = b;
            },
            None => {},
        }
        match secret {
            Some(s) => {
                self.webhooks[i].secret = s;
            },
            None => {},
        }
        self.webhooks[i].last_updated_by = String::from_str(actor);
        self.webhooks[i].last_updated_at = now;
        proof {
            assert(self@.webhooks =~= m.webhooks.update(i as int, target));
            assert(self@.tenants =~= m.tenants);
            assert(self@.routes =~= m.routes);
            self.lemma_webhook_updated(m, tenant_id@, id@, i as int, |w: WebhookModel| patched(w, patch, actor@, now as nat));
        }
        Ok(())
    }

    /// The tables after webhook `i`, of tenant `t` with identifier `id`, became `f` of itself.
    proof fn lemma_webhook_updated(
        &self,
        m: RegistryModel,
        t: Seq<char>,
        id: Seq<char>,
        i: int,
        f: spec_fn(WebhookModel) -> WebhookModel,
    )
        requires
            m.wf(),
            0 <= i < m.webhooks.len(),
            m.webhooks[i].id == id,
            m.webhooks[i].tenant_id == t,
            self@.webhooks == m.webhooks.update(i, f(m.webhooks[i])),
            self@.tenants == m.tenants,
            self@.routes == m.routes,
            self@.max_webhooks == m.max_webhooks,
            forall|w: WebhookModel| #[trigger] f(w).id == w.id && f(w).tenant_id == w.tenant_id,
        ensures
            self@ == m.map_webhook(t, id, f),
            self@.wf(),
    {
        let m2 = m.map_webhook(t, id, f);
        assert forall|k: int| 0 <= k < m.webhooks.len() implies #[trigger] self@.webhooks[k]
            == m2.webhooks[k] by {
            if k != i {
                assert(m.webhooks[k].id != m.webhooks[i].id);
            }
        }
        assert(self@.webhooks =~= m2.webhooks);
        assert(f(m.webhooks[i]).id == m.webhooks[i].id);
        assert forall|tt: Seq<char>| #[trigger] count_owned(self@.webhooks, tt) <= self@.max_webhooks by {
            lemma_count_same_owners(m.webhooks, self@.webhooks, tt);
            assert(count_owned(m.webhooks, tt) <= m.max_webhooks);
        }
        assert forall|a: int| 0 <= a < self@.routes.len() implies self@.owns_webhook(
            (#[trigger] self@.routes[a]).tenant_id,
            self@.routes[a].webhook_id,
        ) by {
            assert(m.owns_webhook(m.routes[a].tenant_id, m.routes[a].webhook_id));
            let k = choose|k: int|
                0 <= k < m.webhooks.len() && (#[trigger] m.webhooks[k]).id == m.routes[a].webhook_id
                    && m.webhooks[k].tenant_id == m.routes[a].tenant_id;
            assert(self@.webhooks[k].id == m.webhooks[k].id);
        }
        assert forall|a: int| 0 <= a < self@.webhooks.len() implies self@.has_tenant(
            (#[trigger] self@.webhooks[a]).tenant_id,
        ) by {
            assert(m.has_tenant(m.webhooks[a].tenant_id));
        }
        assert forall|a: int, b: int| 0 <= a < b < self@.webhooks.len() implies (
        #[trigger] self@.webhooks[a]).id != (#[trigger] self@.webhooks[b]).id by {
            assert(m.webhooks[a].id != m.webhooks[b].id);
        }
    }

    /// Registers the tenant if needed and gives webhook `id` a fresh random secret, which is
    /// returned so that it can be handed over once. Only the secret changes, and who changed
    /// it is recorded; `NotFound` if the tenant has no such webhook.
    pub fn rotate_secret(&mut self, tenant_id: &str, id: &str, actor: &str, now: u64) -> (r: Result<
        String,
        RegistryError,
    >)
        requires
            old(self)@.wf(),
        ensures
            final(self)@.wf(),
            ({
                let m = old(self)@.with_tenant(tenant_id@, now as nat);
                &&& r is Ok <==> m.owns_webhook(tenant_id@, id@)
                &&& r is Err ==> r == Err::<String, RegistryError>(RegistryError::NotFound) && final(self)@ == m
                &&& r matches Ok(s) ==> is_token(s@, SECRET_LEN as nat) && final(self)@ == m.map_webhook(
                    tenant_id@,
                    id@,
                    |w: WebhookModel| WebhookModel { secret: s@, last_updated_by: actor@, ..w },
                )
            }),
    {
        self.ensure_tenant(tenant_id, now);
        let ghost m = self@;
        let i = match self.find_webhook(tenant_id, id) {
            Some(i) => i,
            None => {
                return Err(RegistryError::NotFound);
            },
        };
        let secret = random_token(SECRET_LEN);
        let ghost f = |w: WebhookModel| WebhookModel { secret: secret@, last_updated_by: actor@, ..w };
        let ghost target = f(m.webhooks[i as int]);
        self.webhooks[i].secret = secret.clone();
        self.webhooks[i].last_updated_by = String::from_str(actor);
        proof {
            assert(self@.webhooks =~= m.webhooks.update(i as int, target));
            assert(self@.tenants =~= m.tenants);
            assert(self@.routes =~= m.routes);
            self.lemma_webhook_updated(m, tenant_id@, id@, i as int, f);
        }
        Ok(secret)
    }

    /// Registers the tenant if needed, then deletes webhook `id` of that tenant with every route
    /// under it. Deleting a webhook that the tenant does not have changes nothing else.
    pub fn delete_webhook(&mut self, tenant_id: &str, id: &str, now: u64)
        requires
            old(self)@.wf(),
        ensures
            final(self)@.wf(),
            final(self)@ == old(self)@.with_tenant(tenant_id@, now as nat).without_webhook(
                tenant_id@,
                id@,
            ),
    {
        self.ensure_tenant(tenant_id, now);
        let ghost m = self@;
        let ghost pw = |w: WebhookModel| !(w.id == id@ && w.tenant_id == tenant_id@);
        let ghost pr = |r: RouteModel| !(r.webhook_id == id@ && r.tenant_id == tenant_id@);
        let mut i: usize = 0;
        let ghost mut j: int = 0;
        while i < self.routes.len()
            invariant
                self@.wf(),
                pr == (|r: RouteModel| !(r.webhook_id == id@ && r.tenant_id == tenant_id@)),
                self@.tenants == m.tenants,
                self@.webhooks == m.webhooks,
                self@.max_webhooks == m.max_webhooks,
                0 <= j <= m.routes.len(),
                self@.routes == m.routes.take(j).filter(pr) + m.routes.skip(j),
                i == m.routes.take(j).filter(pr).len(),
                forall|k: int| 0 <= k < i ==> pr(#[trigger] self@.routes[k]),
            decreases self.routes@.len() - i,
        {
            proof {
                lemma_filter_step(m.routes, pr, j);
                assert(self@.routes[i as int] == m.routes[j]);
            }
            if same_text(self.routes[i].webhook_id.as_str(), id) && same_text(
                self.routes[i].tenant_id.as_str(),
                tenant_id,
            ) {
                let ghost before = self@;
                proof {
                    lemma_remove_route_wf(before, i as int);
                }
                self.routes.remove(i);
                proof {
                    assert(self@.routes =~= before.routes.remove(i as int));
                    assert(self@ == RegistryModel { routes: before.routes.remove(i as int), ..before });
                    assert(!pr(m.routes[j]));
                    assert(m.routes.take(j + 1).filter(pr) == m.routes.take(j).filter(pr));
                    assert forall|k: int| 0 <= k < self@.routes.len() implies #[trigger] self@.routes[k]
                        == (m.routes.take(j + 1).filter(pr) + m.routes.skip(j + 1))[k] by {
                        if k >= i {
                            assert(self@.routes[k] == before.routes[k + 1]);
                            assert(before.routes[k + 1] == m.routes.skip(j)[k + 1 - i]);
                        }
                    }
                    assert(self@.routes =~= m.routes.take(j + 1).filter(pr) + m.routes.skip(j + 1));
                }
            } else {
                i = i + 1;
                proof {
                    assert(pr(m.routes[j]));
                    assert(m.routes.take(j + 1).filter(pr) == m.routes.take(j).filter(pr).push(m.routes[j]));
                    assert forall|k: int| 0 <= k < self@.routes.len() implies #[trigger] self@.routes[k]
                        == (m.routes.take(j + 1).filter(pr) + m.routes.skip(j + 1))[k] by {
                        if k >= i {
                            assert(self@.routes[k] == m.routes.skip(j)[k + 1 - i]);
                        }
                    }
                    assert(self@.routes =~= m.routes.take(j + 1).filter(pr) + m.routes.skip(j + 1));
                }
            }
            proof {
                j = j + 1;
            }
        }
        proof {
            assert(m.routes.take(j).filter(pr).len() + m.routes.skip(j).len() == i);
            assert(m.routes.take(j) =~= m.routes);
        }
        match self.find_webhook(tenant_id, id) {
            Some(w) => {
                let ghost before = self@;
                proof {
                    lemma_remove_webhook_wf(before, w as int);
                    assert forall|k: int| 0 <= k < m.webhooks.len() && k != w implies pw(
                        #[trigger] m.webhooks[k],
                    ) by {
                        assert(m.webhooks[k].id != m.webhooks[w as int].id);
                    }
                    lemma_filter_one(m.webhooks, pw, w as int);
                }
                self.webhooks.remove(w);
                proof {
                    assert(self@.webhooks =~= before.webhooks.remove(w as int));
                }
            },
            None => {
                proof {
                    lemma_filter_none(m.webhooks, pw);
                }
            },
        }
        proof {
            assert(self@.tenants =~= m.without_webhook(tenant_id@, id@).tenants);
            assert(self@.routes =~= m.without_webhook(tenant_id@, id@).routes);
            assert(self@.webhooks =~= m.without_webhook(tenant_id@, id@).webhooks);
        }
    }

    /// Registers the tenant if needed, then deletes route `id` of that tenant. Deleting a route
    /// that the tenant does not have changes nothing else.
    pub fn delete_route(&mut self, tenant_id: &str, id: &str, now: u64)
        requires
            old(self)@.wf(),
        ensures
            final(self)@.wf(),
            final(self)@ == old(self)@.with_tenant(tenant_id@, now as nat).without_route(tenant_id@, id@),
    {
        self.ensure_tenant(tenant_id, now);
        let ghost m = self@;
        let ghost pr = |r: RouteModel| !(r.id == id@ && r.tenant_id == tenant_id@);
        match self.find_route(tenant_id, id) {
            Some(i) => {
                proof {
                    lemma_remove_route_wf(m, i as int);
                    assert forall|k: int| 0 <= k < m.routes.len() && k != i implies pr(
                        #[trigger] m.routes[k],
                    ) by {
                        assert(m.routes[k].id != m.routes[i as int].id);
                    }
                    lemma_filter_one(m.routes, pr, i as int);
                }
                self.routes.remove(i);
                proof {
                    assert(self@.routes =~= m.routes.remove(i as int));
                }
            },
            None => {
                proof {
                    lemma_filter_none(m.routes, pr);
                }
            },
        }
        proof {
            assert(self@.tenants =~= m.without_route(tenant_id@, id@).tenants);
            assert(self@.routes =~= m.without_route(tenant_id@, id@).routes);
            assert(self@.webhooks =~= m.without_route(tenant_id@, id@).webhooks);
        }
    }

    /// The position of the route of webhook `webhook_id` whose stored name is `repo_name`.
    fn find_repo(&self, webhook_id: &str, repo_name: &str) -> (r: Option<usize>)
        ensures
            r matches Some(i) ==> i < self@.routes.len() && self@.routes[i as int].webhook_id
                == webhook_id@ && self@.routes[i as int].repo_name == repo_name@,
            r is None ==> !self@.has_repo(webhook_id@, repo_name@),
    {
        let mut i: usize = 0;
        while i < self.routes.len()
            invariant
                i <= self.routes@.len(),
                forall|k: int|
                    0 <= k < i ==> !((#[trigger] self@.routes[k]).webhook_id == webhook_id@
                        && self@.routes[k].repo_name == repo_name@),
            decreases self.routes@.len() - i,
        {
            if same_text(self.routes[i].webhook_id.as_str(), webhook_id) && same_text(
                self.routes[i].repo_name.as_str(),
                repo_name,
            ) {
                return Some(i);
            }
            i = i + 1;
        }
        None
    }

    /// Whether some route, of any tenant, has the identifier `id`.
    fn route_id_taken(&self, id: &str) -> (r: bool)
        ensures
            r == self@.route_id_taken(id@),
    {
        let mut i: usize = 0;
        while i < self.routes.len()
            invariant
                i <= self.routes@.len(),
                forall|k: int| 0 <= k < i ==> (#[trigger] self@.routes[k]).id != id@,
            decreases self.routes@.len() - i,
        {
            if same_text(self.routes[i].id.as_str(), id) {
                assert(self@.routes[i as int].id == id@);
                return true;
            }
            i = i + 1;
        }
        false
    }

    /// Adds a route that is known to be new to the webhook, keeping the tables well formed.
    fn push_route(&mut self, r: Route)
        requires
            old(self)@.wf(),
            old(self)@.owns_webhook(r@.tenant_id, r@.webhook_id),
            !old(self)@.has_repo(r@.webhook_id, r@.repo_name),
            !old(self)@.route_id_taken(r@.id),
            events_ok(r@.events),
            lower_of(r@.repo_name) == r@.repo_name,
        ensures
            final(self)@ == old(self)@.with_route(r@),
            final(self)@.wf(),
    {
        let ghost m = self@;
        let ghost rm = r@;
        self.routes.push(r);
        proof {
            assert(self@.routes =~= m.routes.push(rm));
            assert(self@.webhooks =~= m.webhooks);
            assert(self@.tenants =~= m.tenants);
            let m2 = self@;
            assert forall|t: Seq<char>| #[trigger] count_owned(m2.webhooks, t) <= m2.max_webhooks by {
                assert(count_owned(m.webhooks, t) <= m.max_webhooks);
            }
            assert forall|a: int| 0 <= a < m2.webhooks.len() implies m2.has_tenant(
                (#[trigger] m2.webhooks[a]).tenant_id,
            ) by {
                assert(m.has_tenant(m.webhooks[a].tenant_id));
            }
            let n = m.routes.len() as int;
            assert forall|a: int, b: int| 0 <= a < b < m2.routes.len() implies (
            #[trigger] m2.routes[a]).id != (#[trigger] m2.routes[b]).id by {
                if b < n {
                    assert(m.routes[a].id != m.routes[b].id);
                } else {
                    assert(m2.routes[a] == m.routes[a]);
                }
            }
            assert forall|a: int, b: int|
                0 <= a < b < m2.routes.len() && (#[trigger] m2.routes[a]).webhook_id
                    == (#[trigger] m2.routes[b]).webhook_id implies m2.routes[a].repo_name
                != m2.routes[b].repo_name by {
                if b < n {
                    assert(m.routes[a].webhook_id == m.routes[b].webhook_id);
                } else {
                    assert(m2.routes[a] == m.routes[a]);
                }
            }
            assert forall|a: int| 0 <= a < m2.routes.len() implies m2.owns_webhook(
                (#[trigger] m2.routes[a]).tenant_id,
                m2.routes[a].webhook_id,
            ) && events_ok(m2.routes[a].events) by {
                if a < n {
                    assert(m2.routes[a] == m.routes[a]);
                    assert(lower_of(m.routes[a].repo_name) == m.routes[a].repo_name);
                    assert(m.owns_webhook(m.routes[a].tenant_id, m.routes[a].webhook_id));
                    assert(events_ok(m.routes[a].events));
                }
                let k = choose|k: int|
                    0 <= k < m.webhooks.len() && (#[trigger] m.webhooks[k]).id
                        == m2.routes[a].webhook_id && m.webhooks[k].tenant_id == m2.routes[a].tenant_id;
                assert(m2.webhooks[k] == m.webhooks[k]);
            }
        }
    }

    /// Registers the tenant if needed, then adds under webhook `webhook_id` a route with the
    /// given identifier from the repository whose stored name is `repo_name` to channel
    /// `channel_id`, with no event filter. Stored names are case-folded: a name that folding
    /// would change is refused as malformed.
    pub fn insert_route(
        &mut self,
        tenant_id: &str,
        webhook_id: &str,
        repo_name: String,
        channel_id: String,
        id: String,
        actor: &str,
        now: u64,
    ) -> (r: Result<(), RegistryError>)
        requires
            old(self)@.wf(),
        ensures
            final(self)@.wf(),
            ({
                let m = old(self)@.with_tenant(tenant_id@, now as nat);
                &&& !m.owns_webhook(tenant_id@, webhook_id@) ==> r == Err::<(), RegistryError>(
                    RegistryError::NotFound,
                ) && final(self)@ == m
                &&& m.owns_webhook(tenant_id@, webhook_id@) && lower_of(repo_name@) != repo_name@ ==> r
                    == Err::<(), RegistryError>(RegistryError::ValidationError) && final(self)@ == m
                &&& m.owns_webhook(tenant_id@, webhook_id@) && lower_of(repo_name@) == repo_name@
                    && m.has_repo(webhook_id@, repo_name@) ==> r == Err::<(), RegistryError>(
                    RegistryError::Conflict,
                ) && final(self)@ == m
                &&& m.owns_webhook(tenant_id@, webhook_id@) && lower_of(repo_name@) == repo_name@
                    && !m.has_repo(webhook_id@, repo_name@) && m.route_id_taken(id@) ==> r == Err::<
                    (),
                    RegistryError,
                >(RegistryError::StoreError) && final(self)@ == m
                &&& m.owns_webhook(tenant_id@, webhook_id@) && lower_of(repo_name@) == repo_name@
                    && !m.has_repo(webhook_id@, repo_name@) && !m.route_id_taken(id@) ==> r is Ok && final(self)@ == m.with_route(
                    fresh_route(id@, webhook_id@, tenant_id@, repo_name@, channel_id@, actor@),
                )
            }),
    {
        self.ensure_tenant(tenant_id, now);
        if self.find_webhook(tenant_id, webhook_id).is_none() {
            return Err(RegistryError::NotFound);
        }
        if lowercase(repo_name.as_str()) != repo_name {
            return Err(RegistryError::ValidationError);
        }
        if self.find_repo(webhook_id, repo_name.as_str()).is_some() {
            return Err(RegistryError::Conflict);
        }
        if self.route_id_taken(id.as_str()) {
            return Err(RegistryError::StoreError);
        }
        let r = Route {
            id,
            webhook_id: String::from_str(webhook_id),
            tenant_id: String::from_str(tenant_id),
            repo_name,
            channel_id,
            events: Vec::new(),
            created_by: String::from_str(actor),
            last_updated_by: String::from_str(actor),
        };
        proof {
            assert(views_of(r.events@) =~= Seq::<Seq<char>>::empty());
        }
        self.push_route(r);
        Ok(())
    }

    /// Registers the tenant if needed, then adds under webhook `webhook_id` a route from
    /// repository `owner/name`, stored case-folded, to channel `channel_id` (refused as
    /// malformed should folding the folded name change it again), with a random
    /// identifier that no route has, which is returned. The identifier has `ID_LEN` characters
    /// unless every draw of that length was taken.
    pub fn create_route(
        &mut self,
        tenant_id: &str,
        webhook_id: &str,
        owner: &str,
        name: &str,
        channel_id: String,
        actor: &str,
        now: u64,
    ) -> (r: Result<String, RegistryError>)
        requires
            old(self)@.wf(),
        ensures
            final(self)@.wf(),
            ({
                let m = old(self)@.with_tenant(tenant_id@, now as nat);
                let key = repo_key(owner@, name@);
                &&& r == Err::<String, RegistryError>(RegistryError::NotFound) <==> !m.owns_webhook(
                    tenant_id@,
                    webhook_id@,
                )
                &&& r == Err::<String, RegistryError>(RegistryError::ValidationError) <==> m.owns_webhook(
                    tenant_id@,
                    webhook_id@,
                ) && lower_of(key) != key
                &&& r == Err::<String, RegistryError>(RegistryError::Conflict) <==> m.owns_webhook(
                    tenant_id@,
                    webhook_id@,
                ) && lower_of(key) == key && m.has_repo(webhook_id@, key)
                &&& r is Err ==> final(self)@ == m && (r == Err::<String, RegistryError>(
                    RegistryError::NotFound,
                ) || r == Err::<String, RegistryError>(RegistryError::ValidationError) || r == Err::<
                    String,
                    RegistryError,
                >(RegistryError::Conflict))
                &&& r matches Ok(id) ==> is_id(id@, ID_LEN as nat) && !m.route_id_taken(id@)
                    && final(self)@ == m.with_route(
                    fresh_route(id@, webhook_id@, tenant_id@, key, channel_id@, actor@),
                )
                &&& r matches Ok(id) ==> ((forall|i: int|
                    0 <= i < m.routes.len() ==> !is_token(#[trigger] m.routes[i].id, ID_LEN as nat))
                    ==> id@.len() == ID_LEN)
            }),
    {
        let mut full = String::from_str(owner);
        full.append("/");
        full.append(name);
        proof {
            reveal_strlit("/");
            assert(full@ == owner@ + seq!['/'] + name@);
        }
        let key = lowercase(full.as_str());
        let id = self.unused_route_id();
        match self.insert_route(tenant_id, webhook_id, key, channel_id, id.clone(), actor, now) {
            Ok(()) => Ok(id),
            Err(e) => Err(e),
        }
    }

    /// Registers the tenant if needed, then sends route `id` to channel `channel_id` from now
    /// on; `NotFound` if the tenant has no such route.
    pub fn set_route_channel(
        &mut self,
        tenant_id: &str,
        id: &str,
        channel_id: String,
        actor: &str,
        now: u64,
    ) -> (r: Result<(), RegistryError>)
        requires
            old(self)@.wf(),
        ensures
            final(self)@.wf(),
            ({
                let m = old(self)@.with_tenant(tenant_id@, now as nat);
                &&& r is Ok <==> m.owns_route(tenant_id@, id@)
                &&& r is Err ==> r == Err::<(), RegistryError>(RegistryError::NotFound) && final(self)@ == m
                &&& r is Ok ==> final(self)@ == m.map_route(
                    tenant_id@,
                    id@,
                    |x: RouteModel| RouteModel { channel_id: channel_id@, last_updated_by: actor@, ..x },
                )
            }),
    {
        self.ensure_tenant(tenant_id, now);
        let ghost m = self@;
        let i = match self.find_route(tenant_id, id) {
            Some(i) => i,
            None => {
                return Err(RegistryError::NotFound);
            },
        };
        let ghost f = |x: RouteModel| RouteModel { channel_id: channel_id@, last_updated_by: actor@, ..x };
        let ghost target = f(m.routes[i as int]);
        self.routes[i].channel_id = channel_id;
        self.routes[i].last_updated_by = String::from_str(actor);
        proof {
            assert(self@.routes =~= m.routes.update(i as int, target));
            assert(self@.tenants =~= m.tenants);
            assert(self@.webhooks =~= m.webhooks);
            self.lemma_route_updated(m, tenant_id@, id@, i as int, f);
        }
        Ok(())
    }

    /// The tables after route `i`, of tenant `t` with identifier `id`, became `f` of itself.
    proof fn lemma_route_updated(
        &self,
        m: RegistryModel,
        t: Seq<char>,
        id: Seq<char>,
        i: int,
        f: spec_fn(RouteModel) -> RouteModel,
    )
        requires
            m.wf(),
            0 <= i < m.routes.len(),
            m.routes[i].id == id,
            m.routes[i].tenant_id == t,
            self@.routes == m.routes.update(i, f(m.routes[i])),
            self@.tenants == m.tenants,
            self@.webhooks == m.webhooks,
            self@.max_webhooks == m.max_webhooks,
            forall|r: RouteModel| #[trigger] f(r).id == r.id && f(r).webhook_id == r.webhook_id
                && f(r).tenant_id == r.tenant_id && f(r).repo_name == r.repo_name,
            forall|r: RouteModel| events_ok(r.events) ==> events_ok(#[trigger] f(r).events),
        ensures
            self@ == m.map_route(t, id, f),
            self@.wf(),
    {
        let m2 = m.map_route(t, id, f);
        assert forall|k: int| 0 <= k < m.routes.len() implies #[trigger] self@.routes[k]
            == m2.routes[k] by {
            if k != i {
                assert(m.routes[k].id != m.routes[i].id);
            }
        }
        assert(self@.routes =~= m2.routes);
        lemma_map_route_wf(m, t, id, f);
    }

    /// Registers the tenant if needed, then replaces the event filter of route `id` with the
    /// space-separated names in `events_text`. A text with a comma is refused as malformed,
    /// whatever else it holds; `NotFound` if the tenant has no such route.
    pub fn set_route_events(
        &mut self,
        tenant_id: &str,
        id: &str,
        events_text: &str,
        actor: &str,
        now: u64,
    ) -> (r: Result<(), RegistryError>)
        requires
            old(self)@.wf(),
        ensures
            final(self)@.wf(),
            ({
                let m = old(self)@.with_tenant(tenant_id@, now as nat);
                &&& r == Err::<(), RegistryError>(RegistryError::ValidationError) <==> events_text@.contains(',')
                &&& r == Err::<(), RegistryError>(RegistryError::NotFound) <==> !events_text@.contains(',')
                    && !m.owns_route(tenant_id@, id@)
                &&& r is Err ==> final(self)@ == m
                &&& r is Ok ==> final(self)@ == m.map_route(
                    tenant_id@,
                    id@,
                    |x: RouteModel| RouteModel { events: words(events_text@), last_updated_by: actor@, ..x },
                )
            }),
    {
        self.ensure_tenant(tenant_id, now);
        if contains_comma(events_text) {
            return Err(RegistryError::ValidationError);
        }
        let ghost m = self@;
        let i = match self.find_route(tenant_id, id) {
            Some(i) => i,
            None => {
                return Err(RegistryError::NotFound);
            },
        };
        let ghost f = |x: RouteModel| RouteModel { events: words(events_text@), last_updated_by: actor@, ..x };
        let ghost target = f(m.routes[i as int]);
        let events = split_words(events_text);
        proof {
            assert(views_of(events@) =~= words(events_text@));
            lemma_words_no_comma(events_text@);
        }
        self.routes[i].events = events;
        self.routes[i].last_updated_by = String::from_str(actor);
        proof {
            assert(self@.routes =~= m.routes.update(i as int, target));
            assert(self@.tenants =~= m.tenants);
            assert(self@.webhooks =~= m.webhooks);
            self.lemma_route_updated(m, tenant_id@, id@, i as int, f);
        }
        Ok(())
    }

    /// Registers the tenant if needed, then empties the event filter of route `id`, so that
    /// every event passes; `NotFound` if the tenant has no such route.
    pub fn clear_route_events(&mut self, tenant_id: &str, id: &str, actor: &str, now: u64) -> (r:
        Result<(), RegistryError>)
        requires
            old(self)@.wf(),
        ensures
            final(self)@.wf(),
            ({
                let m = old(self)@.with_tenant(tenant_id@, now as nat);
                &&& r is Ok <==> m.owns_route(tenant_id@, id@)
                &&& r is Err ==> r == Err::<(), RegistryError>(RegistryError::NotFound) && final(self)@ == m
                &&& r is Ok ==> final(self)@ == m.map_route(
                    tenant_id@,
                    id@,
                    |x: RouteModel| RouteModel { events: Seq::empty(), last_updated_by: actor@, ..x },
                )
            }),
    {
        self.ensure_tenant(tenant_id, now);
        let ghost m = self@;
        let i = match self.find_route(tenant_id, id) {
            Some(i) => i,
            None => {
                return Err(RegistryError::NotFound);
            },
        };
        let ghost f = |x: RouteModel| RouteModel { events: Seq::empty(), last_updated_by: actor@, ..x };
        let ghost target = f(m.routes[i as int]);
        let events: Vec<String> = Vec::new();
        proof {
            assert(views_of(events@) =~= Seq::<Seq<char>>::empty());
        }
        self.routes[i].events = events;
        self.routes[i].last_updated_by = String::from_str(actor);
        proof {
            assert(self@.routes =~= m.routes.update(i as int, target));
            assert(self@.tenants =~= m.tenants);
            assert(self@.webhooks =~= m.webhooks);
            self.lemma_route_updated(m, tenant_id@, id@, i as int, f);
        }
        Ok(())
    }

    /// Copies of the routes of webhook `webhook_id` of tenant `tenant_id`, in order.
    fn routes_under(&self, tenant_id: &str, webhook_id: &str) -> (r: Vec<Route>)
        ensures
            r@.map_values(|x: Route| x@) == routes_of(self@, tenant_id@, webhook_id@),
    {
        let ghost p = |x: RouteModel| x.webhook_id == webhook_id@ && x.tenant_id == tenant_id@;
        let mut out: Vec<Route> = Vec::new();
        let mut i: usize = 0;
        while i < self.routes.len()
            invariant
                i <= self.routes@.len(),
                p == (|x: RouteModel| x.webhook_id == webhook_id@ && x.tenant_id == tenant_id@),
                out@.map_values(|x: Route| x@) == self@.routes.take(i as int).filter(p),
            decreases self.routes@.len() - i,
        {
            proof {
                lemma_filter_step(self@.routes, p, i as int);
            }
            let ghost before = out@;
            if same_text(self.routes[i].webhook_id.as_str(), webhook_id) && same_text(
                self.routes[i].tenant_id.as_str(),
                tenant_id,
            ) {
                out.push(self.routes[i].clone());
                proof {
                    assert(out@.map_values(|x: Route| x@) =~= before.map_values(|x: Route| x@).push(
                        self@.routes[i as int],
                    ));
                }
            }
            i = i + 1;
        }
        assert(self@.routes.take(i as int) =~= self@.routes);
        out
    }

    /// Registers the tenant if needed and lists its webhooks, each with the routes under it.
    /// A route with an empty event filter lets every event through.
    pub fn list_webhooks(&mut self, tenant_id: &str, now: u64) -> (r: Vec<WebhookListing>)
        requires
            old(self)@.wf(),
        ensures
            final(self)@.wf(),
            final(self)@ == old(self)@.with_tenant(tenant_id@, now as nat),
            r@.len() == webhooks_of(final(self)@, tenant_id@).len(),
            forall|k: int|
                0 <= k < r@.len() ==> (#[trigger] r@[k]).webhook@ == webhooks_of(final(self)@, tenant_id@)[k]
                    && r@[k].routes@.map_values(|x: Route| x@) == routes_of(
                    final(self)@,
                    tenant_id@,
                    webhooks_of(final(self)@, tenant_id@)[k].id,
                ),
    {
        self.ensure_tenant(tenant_id, now);
        let ghost p = |x: WebhookModel| x.tenant_id == tenant_id@;
        let mut out: Vec<WebhookListing> = Vec::new();
        let mut i: usize = 0;
        while i < self.webhooks.len()
            invariant
                i <= self.webhooks@.len(),
                p == (|x: WebhookModel| x.tenant_id == tenant_id@),
                out@.len() == self@.webhooks.take(i as int).filter(p).len(),
                forall|k: int|
                    0 <= k < out@.len() ==> (#[trigger] out@[k]).webhook@ == self@.webhooks.take(
                        i as int,
                    ).filter(p)[k] && out@[k].routes@.map_values(|x: Route| x@) == routes_of(
                        self@,
                        tenant_id@,
                        self@.webhooks.take(i as int).filter(p)[k].id,
                    ),
            decreases self.webhooks@.len() - i,
        {
            proof {
                lemma_filter_step(self@.webhooks, p, i as int);
            }
            if same_text(self.webhooks[i].tenant_id.as_str(), tenant_id) {
                let routes = self.routes_under(tenant_id, self.webhooks[i].id.as_str());
                out.push(WebhookListing { webhook: self.webhooks[i].clone(), routes });
            }
            i = i + 1;
        }
        assert(self@.webhooks.take(i as int) =~= self@.webhooks);
        out
    }

    /// Registers the tenant if needed and writes the routes of webhook `webhook_id` into a
    /// snapshot of the current version; `NotFound` if the tenant has no such webhook.
    pub fn export_backup(&mut self, tenant_id: &str, webhook_id: &str, now: u64) -> (r: Result<
        Snapshot,
        RegistryError,
    >)
        requires
            old(self)@.wf(),
        ensures
            final(self)@.wf(),
            final(self)@ == old(self)@.with_tenant(tenant_id@, now as nat),
            r is Ok <==> final(self)@.owns_webhook(tenant_id@, webhook_id@),
            r is Err ==> r == Err::<Snapshot, RegistryError>(RegistryError::NotFound),
            r matches Ok(s) ==> s.protocol == SNAPSHOT_PROTOCOL && entries_of(s.routes@) == routes_of(
                final(self)@,
                tenant_id@,
                webhook_id@,
            ).map_values(|x: RouteModel| entry_of(x)),
    {
        self.ensure_tenant(tenant_id, now);
        if self.find_webhook(tenant_id, webhook_id).is_none() {
            return Err(RegistryError::NotFound);
        }
        let routes = self.routes_under(tenant_id, webhook_id);
        let ghost rs = routes@.map_values(|x: Route| x@);
        let mut entries: Vec<SnapshotRoute> = Vec::new();
        let mut i: usize = 0;
        while i < routes.len()
            invariant
                i <= routes@.len(),
                rs == routes@.map_values(|x: Route| x@),
                entries@.len() == i,
                forall|k: int| 0 <= k < i ==> (#[trigger] entries@[k])@ == entry_of(rs[k]),
            decreases routes@.len() - i,
        {
            let r = &routes[i];
            entries.push(
                SnapshotRoute {
                    repo_name: r.repo_name.clone(),
                    channel_id: r.channel_id.clone(),
                    events: copy_strings(&r.events),
                },
            );
            i = i + 1;
        }
        assert(entries_of(entries@) =~= rs.map_values(|x: RouteModel| entry_of(x)));
        Ok(Snapshot { protocol: SNAPSHOT_PROTOCOL, routes: entries })
    }

    /// Registers the tenant if needed, then merges the entries of a snapshot whose repository
    /// names are already case-folded into the routes of webhook `webhook_id`: an entry whose
    /// name the webhook routes overwrites that route's channel and events, any other is added
    /// as a new route. Returns how many entries were added and how many overwrote a route.
    pub fn import_folded(
        &mut self,
        tenant_id: &str,
        webhook_id: &str,
        snapshot: Snapshot,
        actor: &str,
        now: u64,
    ) -> (r: Result<ImportSummary, RegistryError>)
        requires
            old(self)@.wf(),
        ensures
            final(self)@.wf(),
            import_outcome(
                old(self)@,
                final(self)@,
                tenant_id@,
                webhook_id@,
                snapshot.protocol,
                entries_of(snapshot.routes@),
                actor@,
                now as nat,
                r,
            ),
    {
        self.ensure_tenant(tenant_id, now);
        let ghost m = self@;
        let ghost es = entries_of(snapshot.routes@);
        let ghost t0 = route_table(m.routes, webhook_id@);
        if self.find_webhook(tenant_id, webhook_id).is_none() {
            return Err(RegistryError::NotFound);
        }
        if !(snapshot.protocol == SNAPSHOT_PROTOCOL || snapshot.protocol == LEGACY_SNAPSHOT_PROTOCOL)
            || !entries_valid(&snapshot.routes) || !entries_folded(&snapshot.routes) {
            return Err(RegistryError::ValidationError);
        }
        let mut inserted: u64 = 0;
        let mut updated: u64 = 0;
        let mut k: usize = 0;
        proof {
            assert(es.take(0) =~= Seq::<SnapshotRouteModel>::empty());
        }
        while k < snapshot.routes.len()
            invariant
                self@.wf(),
                m.wf(),
                m == old(self)@.with_tenant(tenant_id@, now as nat),
                known_protocol(snapshot.protocol),
                m.owns_webhook(tenant_id@, webhook_id@),
                es == entries_of(snapshot.routes@),
                entries_ok(es),
                names_folded(es),
                t0 == route_table(m.routes, webhook_id@),
                k <= es.len(),
                merged_prefix(m, self@, webhook_id@, es, k as int),
                upserted(m, self@, tenant_id@, webhook_id@, entry_names(es.take(k as int)), actor@, inserted as nat),
                inserted == merge(t0, es.take(k as int)).1,
                updated == merge(t0, es.take(k as int)).2,
            decreases es.len() - k,
        {
            let ghost mk = self@;
            let ghost tk = merge(t0, es.take(k as int)).0;
            proof {
                lemma_merge_dom(t0, es.take(k as int));
                lemma_merge_dom(t0, es.take(k + 1));
                assert(es.take(k + 1).drop_last() =~= es.take(k as int));
                lemma_entry_names_last(es.take(k + 1));
                assert(es.take(k + 1).last() == es[k as int]);
            }
            let e = &snapshot.routes[k];
            let ghost key = e.repo_name@;
            let ghost content = RouteContent { channel_id: e.channel_id@, events: views_of(e.events@) };
            proof {
                lemma_table_dom(mk.routes, webhook_id@, key);
            }
            match self.find_repo(webhook_id, e.repo_name.as_str()) {
                Some(i) => {
                    let ghost old_route = mk.routes[i as int];
                    proof {
                        assert(mk.owns_webhook(old_route.tenant_id, old_route.webhook_id));
                        let a = choose|a: int|
                            0 <= a < mk.webhooks.len() && (#[trigger] mk.webhooks[a]).id == old_route.webhook_id
                                && mk.webhooks[a].tenant_id == old_route.tenant_id;
                        let b = choose|b: int|
                            0 <= b < m.webhooks.len() && (#[trigger] m.webhooks[b]).id == webhook_id@
                                && m.webhooks[b].tenant_id == tenant_id@;
                        if a != b {
                            if a < b {
                                assert(mk.webhooks[a].id != mk.webhooks[b].id);
                            } else {
                                assert(mk.webhooks[b].id != mk.webhooks[a].id);
                            }
                        }
                    }
                    let ghost f = |x: RouteModel| RouteModel { channel_id: e.channel_id@, events: views_of(e.events@), last_updated_by: actor@, ..x };
                    let ghost target = f(old_route);
                    self.routes[i].channel_id = e.channel_id.clone();
                    self.routes[i].events = copy_strings(&e.events);
                    self.routes[i].last_updated_by = String::from_str(actor);
                    proof {
                        assert(self@.routes =~= mk.routes.update(i as int, target));
                        assert(self@.tenants =~= mk.tenants);
                        assert(self@.webhooks =~= mk.webhooks);
                        assert(events_ok(es[k as int].events));
                        self.lemma_route_updated(mk, tenant_id@, old_route.id, i as int, f);
                        assert(names_unique(mk.routes));
                        assert forall|w2: Seq<char>| w2 != webhook_id@ implies #[trigger] route_table(
                            self@.routes,
                            w2,
                        ) == route_table(m.routes, w2) by {
                            lemma_table_update(mk.routes, i as int, target, w2);
                        }
                        lemma_table_update(mk.routes, i as int, target, webhook_id@);
                        assert(route_table(self@.routes, webhook_id@) == tk.insert(key, content));
                        assert(tk.dom().contains(key));
                        let n = m.routes.len() as int;
                        let nk = entry_names(es.take(k as int));
                        let nk1 = entry_names(es.take(k + 1));
                        assert(nk1 == nk.insert(key));
                        assert forall|j: int| 0 <= j < n implies same_identity(
                            #[trigger] m.routes[j],
                            self@.routes[j],
                        ) by {
                            assert(same_identity(m.routes[j], mk.routes[j]));
                        }
                        assert forall|j: int|
                            0 <= j < n && ((#[trigger] m.routes[j]).webhook_id != webhook_id@ || !nk1.contains(
                                m.routes[j].repo_name,
                            )) implies self@.routes[j] == m.routes[j] by {
                            assert(same_identity(m.routes[j], mk.routes[j]));
                        }
                        assert forall|j: int|
                            0 <= j < n && (#[trigger] m.routes[j]).webhook_id == webhook_id@ && nk1.contains(
                                m.routes[j].repo_name,
                            ) implies self@.routes[j].last_updated_by == actor@ by {
                            assert(same_identity(m.routes[j], mk.routes[j]));
                            if j != i && !nk.contains(m.routes[j].repo_name) {
                                if j < i {
                                    assert(mk.routes[j].webhook_id == mk.routes[i as int].webhook_id);
                                } else {
                                    assert(mk.routes[i as int].webhook_id == mk.routes[j].webhook_id);
                                }
                            }
                        }
                        assert forall|j: int| n <= j < self@.routes.len() implies (
                        #[trigger] self@.routes[j]).webhook_id == webhook_id@ && self@.routes[j].tenant_id
                            == tenant_id@ && self@.routes[j].created_by == actor@
                            && self@.routes[j].last_updated_by == actor@ && is_id(
                            self@.routes[j].id,
                            ID_LEN as nat,
                        ) by {
                            assert(mk.routes[j].webhook_id == webhook_id@);
                        }
                    }
                    updated = updated + 1;
                },
                None => {
                    let id = self.unused_route_id();
                    let route = Route {
                        id,
                        webhook_id: String::from_str(webhook_id),
                        tenant_id: String::from_str(tenant_id),
                        repo_name: e.repo_name.clone(),
                        channel_id: e.channel_id.clone(),
                        events: copy_strings(&e.events),
                        created_by: String::from_str(actor),
                        last_updated_by: String::from_str(actor),
                    };
                    proof {
                        assert(events_ok(es[k as int].events));
                    }
                    let ghost rm = route@;
                    self.push_route(route);
                    proof {
                        assert forall|w2: Seq<char>| w2 != webhook_id@ implies #[trigger] route_table(
                            self@.routes,
                            w2,
                        ) == route_table(m.routes, w2) by {
                            lemma_table_push(mk.routes, rm, w2);
                        }
                        lemma_table_push(mk.routes, rm, webhook_id@);
                        assert(!tk.dom().contains(key));
                        let n = m.routes.len() as int;
                        let nk = entry_names(es.take(k as int));
                        let nk1 = entry_names(es.take(k + 1));
                        assert(nk1 == nk.insert(key));
                        assert(self@.routes == mk.routes.push(rm));
                        assert forall|j: int| 0 <= j < n implies same_identity(
                            #[trigger] m.routes[j],
                            self@.routes[j],
                        ) by {
                            assert(same_identity(m.routes[j], mk.routes[j]));
                            assert(self@.routes[j] == mk.routes[j]);
                        }
                        assert forall|j: int|
                            0 <= j < n && ((#[trigger] m.routes[j]).webhook_id != webhook_id@ || !nk1.contains(
                                m.routes[j].repo_name,
                            )) implies self@.routes[j] == m.routes[j] by {
                            assert(self@.routes[j] == mk.routes[j]);
                        }
                        assert forall|j: int|
                            0 <= j < n && (#[trigger] m.routes[j]).webhook_id == webhook_id@ && nk1.contains(
                                m.routes[j].repo_name,
                            ) implies self@.routes[j].last_updated_by == actor@ by {
                            assert(same_identity(m.routes[j], mk.routes[j]));
                            assert(self@.routes[j] == mk.routes[j]);
                            if !nk.contains(m.routes[j].repo_name) {
                                assert(mk.has_repo(webhook_id@, key));
                            }
                        }
                        assert forall|j: int| n <= j < self@.routes.len() implies (
                        #[trigger] self@.routes[j]).webhook_id == webhook_id@ && self@.routes[j].tenant_id
                            == tenant_id@ && self@.routes[j].created_by == actor@
                            && self@.routes[j].last_updated_by == actor@ && is_id(
                            self@.routes[j].id,
                            ID_LEN as nat,
                        ) by {
                            if j < mk.routes.len() {
                                assert(self@.routes[j] == mk.routes[j]);
                            }
                        }
                    }
                    inserted = inserted + 1;
                },
            }
            k = k + 1;
        }
        proof {
            assert(es.take(k as int) =~= es);
            assert(names_unique(self@.routes));
            assert forall|i: int|
                0 <= i < self@.routes.len() && (#[trigger] self@.routes[i]).webhook_id == webhook_id@
                    implies route_table(self@.routes, webhook_id@)[self@.routes[i].repo_name] == (
            RouteContent { channel_id: self@.routes[i].channel_id, events: self@.routes[i].events }) by {
                lemma_table_value(self@.routes, webhook_id@, i);
            }
        }
        Ok(ImportSummary { inserted, updated })
    }

    /// Registers the tenant if needed, then merges a snapshot into the routes of webhook
    /// `webhook_id`, matching each entry to a route by its case-folded repository name.
    /// Importing the same snapshot again finds every entry and adds nothing.
    pub fn import_backup(
        &mut self,
        tenant_id: &str,
        webhook_id: &str,
        snapshot: Snapshot,
        actor: &str,
        now: u64,
    ) -> (r: Result<ImportSummary, RegistryError>)
        requires
            old(self)@.wf(),
        ensures
            final(self)@.wf(),
            import_outcome(
                old(self)@,
                final(self)@,
                tenant_id@,
                webhook_id@,
                snapshot.protocol,
                folded(entries_of(snapshot.routes@)),
                actor@,
                now as nat,
                r,
            ),
    {
        let mut entries: Vec<SnapshotRoute> = Vec::new();
        let mut k: usize = 0;
        while k < snapshot.routes.len()
            invariant
                k <= snapshot.routes@.len(),
                entries@.len() == k,
                forall|a: int|
                    0 <= a < k ==> (#[trigger] entries@[a])@ == folded(entries_of(snapshot.routes@))[a],
            decreases snapshot.routes@.len() - k,
        {
            let e = &snapshot.routes[k];
            entries.push(
                SnapshotRoute {
                    repo_name: lowercase(e.repo_name.as_str()),
                    channel_id: e.channel_id.clone(),
                    events: copy_strings(&e.events),
                },
            );
            k = k + 1;
        }
        proof {
            assert(entries_of(entries@) =~= folded(entries_of(snapshot.routes@)));
        }
        self.import_folded(
            tenant_id,
            webhook_id,
            Snapshot { protocol: snapshot.protocol, routes: entries },
            actor,
            now,
        )
    }
}

/// Whether every entry's repository name is its own case-folding.
fn entries_folded(entries: &Vec<SnapshotRoute>) -> (r: bool)
    ensures
        r == names_folded(entries_of(entries@)),
{
    let mut k: usize = 0;
    while k < entries.len()
        invariant
            k <= entries@.len(),
            forall|a: int| 0 <= a < k ==> lower_of(#[trigger] entries_of(entries@)[a].repo_name)
                == entries_of(entries@)[a].repo_name,
        decreases entries@.len() - k,
    {
        let folded = lowercase(entries[k].repo_name.as_str());
        if folded != entries[k].repo_name {
            assert(entries_of(entries@)[k as int].repo_name == entries@[k as int].repo_name@);
            return false;
        }
        assert(entries_of(entries@)[k as int].repo_name == entries@[k as int].repo_name@);
        k = k + 1;
    }
    true
}

/// Whether every event name of every entry is free of commas.
fn entries_valid(entries: &Vec<SnapshotRoute>) -> (r: bool)
    ensures
        r == entries_ok(entries_of(entries@)),
{
    let mut k: usize = 0;
    while k < entries.len()
        invariant
            k <= entries@.len(),
            forall|a: int| 0 <= a < k ==> events_ok(#[trigger] entries_of(entries@)[a].events),
        decreases entries@.len() - k,
    {
        let events = &entries[k].events;
        let mut j: usize = 0;
        while j < events.len()
            invariant
                k < entries@.len(),
                *events == entries@[k as int].events,
                j <= events@.len(),
                forall|b: int| 0 <= b < j ==> !(#[trigger] events@[b]@).contains(','),
            decreases events@.len() - j,
        {
            if contains_comma(events[j].as_str()) {
                assert(!events_ok(entries_of(entries@)[k as int].events)) by {
                    assert(views_of(events@)[j as int] == events@[j as int]@);
                }
                return false;
            }
            j = j + 1;
        }
        assert(events_ok(entries_of(entries@)[k as int].events)) by {
            assert forall|b: int| 0 <= b < views_of(events@).len() implies !(
            #[trigger] views_of(events@)[b]).contains(',') by {
                assert(views_of(events@)[b] == events@[b]@);
            }
        }
        k = k + 1;
    }
    true
}

} // verus!
