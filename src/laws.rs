use vstd::prelude::*;

use crate::merge::{
    entry_names, lemma_merge_twice, lemma_merge_all_fresh, lemma_merge_all_present, lemma_merge_dom, lemma_table_dom,
    merge, route_table,
};
use crate::model::{
    count_owned, same_identity, fresh_route, import_outcome, lemma_filter_none, lemma_with_tenant, repo_key,
    RegistryModel,
};
use crate::text::lower_of;
use crate::types::{ImportSummary, RouteModel, SnapshotRouteModel, WebhookModel};

verus! {

/// No tenant holds more webhooks than the quota. The bound is part of the invariant that the
/// registry starts with and that every command keeps, so it holds after any sequence of them.
pub proof fn law_quota(m: RegistryModel, t: Seq<char>)
    requires
        m.wf(),
    ensures
        m.webhook_count(t) <= m.max_webhooks,
{
    assert(count_owned(m.webhooks, t) <= m.max_webhooks);
}

/// Once a route from repository `o1/n1` was created under a webhook (its folded name being
/// stable, as creation asks), creating a route under it from any `o2/n2` with the same
/// case-folded name meets the conflict condition of `create_route`: the webhook is the
/// tenant's, the name is stable, and the webhook already routes that name.
pub proof fn law_route_name_conflict(
    m: RegistryModel,
    t: Seq<char>,
    w: Seq<char>,
    id: Seq<char>,
    o1: Seq<char>,
    n1: Seq<char>,
    o2: Seq<char>,
    n2: Seq<char>,
    channel: Seq<char>,
    actor: Seq<char>,
    now1: nat,
    now2: nat,
)
    requires
        m.with_tenant(t, now1).owns_webhook(t, w),
        lower_of(repo_key(o1, n1)) == repo_key(o1, n1),
        repo_key(o1, n1) == repo_key(o2, n2),
    ensures
        lower_of(repo_key(o2, n2)) == repo_key(o2, n2),
        ({
            let m1 = m.with_tenant(t, now1).with_route(
                fresh_route(id, w, t, repo_key(o1, n1), channel, actor),
            );
            m1.with_tenant(t, now2).owns_webhook(t, w) && m1.with_tenant(t, now2).has_repo(
                w,
                repo_key(o2, n2),
            )
        }),
{
    let m0 = m.with_tenant(t, now1);
    let m1 = m0.with_route(fresh_route(id, w, t, repo_key(o1, n1), channel, actor));
    lemma_with_tenant(m, t, now1, now2);
    assert(m1.has_tenant(t)) by {
        let k = choose|k: int| 0 <= k < m0.tenants.len() && (#[trigger] m0.tenants[k]).id == t;
        assert(m1.tenants[k] == m0.tenants[k]);
    }
    assert(m1.with_tenant(t, now2) == m1);
    let k = choose|k: int|
        0 <= k < m0.webhooks.len() && (#[trigger] m0.webhooks[k]).id == w && m0.webhooks[k].tenant_id == t;
    assert(m1.webhooks[k] == m0.webhooks[k]);
    assert(m1.routes[m0.routes.len() as int].webhook_id == w);
}

/// Importing a snapshot whose (case-folded) names are distinct and new to the webhook adds
/// every entry and overwrites none; importing the same snapshot again right after overwrites
/// every entry and adds none.
pub proof fn law_import_twice(
    m0: RegistryModel,
    m1: RegistryModel,
    m2: RegistryModel,
    t: Seq<char>,
    w: Seq<char>,
    protocol: u64,
    es: Seq<SnapshotRouteModel>,
    actor: Seq<char>,
    now1: nat,
    now2: nat,
    s1: ImportSummary,
    s2: ImportSummary,
)
    requires
        import_outcome(m0, m1, t, w, protocol, es, actor, now1, Ok(s1)),
        import_outcome(m1, m2, t, w, protocol, es, actor, now2, Ok(s2)),
        forall|i: int| 0 <= i < es.len() ==> !m0.has_repo(w, #[trigger] es[i].repo_name),
        forall|i: int, j: int|
            0 <= i < j < es.len() ==> (#[trigger] es[i]).repo_name != (#[trigger] es[j]).repo_name,
    ensures
        s1.inserted == es.len(),
        s1.updated == 0,
        s2.inserted == 0,
        s2.updated == es.len(),
{
    let m0t = m0.with_tenant(t, now1);
    let t0 = route_table(m0t.routes, w);
    assert(m0t.routes == m0.routes);
    assert forall|i: int| 0 <= i < es.len() implies !t0.dom().contains(#[trigger] es[i].repo_name) by {
        lemma_table_dom(m0.routes, w, es[i].repo_name);
        if t0.dom().contains(es[i].repo_name) {
            let k = choose|k: int|
                0 <= k < m0.routes.len() && (#[trigger] m0.routes[k]).webhook_id == w
                    && m0.routes[k].repo_name == es[i].repo_name;
            assert(m0.has_repo(w, es[i].repo_name));
        }
    }
    lemma_merge_all_fresh(t0, es);
    assert(es.take(es.len() as int) =~= es);
    let t1 = route_table(m1.routes, w);
    assert(t1 == merge(t0, es).0);
    lemma_with_tenant(m0, t, now1, now2);
    assert(m1.tenants == m0t.tenants);
    assert(m1.has_tenant(t)) by {
        let k = choose|k: int| 0 <= k < m0t.tenants.len() && (#[trigger] m0t.tenants[k]).id == t;
        assert(m1.tenants[k] == m0t.tenants[k]);
    }
    assert(m1.with_tenant(t, now2) == m1);
    lemma_merge_dom(t0, es);
    assert forall|i: int| 0 <= i < es.len() implies t1.dom().contains(#[trigger] es[i].repo_name) by {
        assert(entry_names(es).contains(es[i].repo_name));
    }
    lemma_merge_all_present(t1, es);
}

/// Importing a snapshot right after the same import succeeded changes nothing: every entry
/// overwrites a route with what it already holds, none is added, and the tables are as the
/// first import left them. This holds whatever the snapshot holds, repeated names included.
pub proof fn law_import_again_changes_nothing(
    m0: RegistryModel,
    m1: RegistryModel,
    m2: RegistryModel,
    t: Seq<char>,
    w: Seq<char>,
    protocol: u64,
    es: Seq<SnapshotRouteModel>,
    actor: Seq<char>,
    now1: nat,
    now2: nat,
    s1: ImportSummary,
    s2: ImportSummary,
)
    requires
        import_outcome(m0, m1, t, w, protocol, es, actor, now1, Ok(s1)),
        import_outcome(m1, m2, t, w, protocol, es, actor, now2, Ok(s2)),
    ensures
        s2.inserted == 0,
        s2.updated == es.len(),
        m2 == m1,
{
    let m0t = m0.with_tenant(t, now1);
    let t0 = route_table(m0t.routes, w);
    let t1 = route_table(m1.routes, w);
    assert(es.take(es.len() as int) =~= es);
    assert(t1 == merge(t0, es).0);
    lemma_with_tenant(m0, t, now1, now2);
    assert(m1.tenants == m0t.tenants);
    assert(m1.has_tenant(t)) by {
        let k = choose|k: int| 0 <= k < m0t.tenants.len() && (#[trigger] m0t.tenants[k]).id == t;
        assert(m1.tenants[k] == m0t.tenants[k]);
    }
    assert(m1.with_tenant(t, now2) == m1);
    lemma_merge_dom(t0, es);
    assert forall|i: int| 0 <= i < es.len() implies t1.dom().contains(#[trigger] es[i].repo_name) by {
        assert(entry_names(es).contains(es[i].repo_name));
    }
    lemma_merge_all_present(t1, es);
    lemma_merge_twice(t0, es);
    let t2 = route_table(m2.routes, w);
    assert(t2 == t1);
    let names = entry_names(es);
    let n0 = m0t.routes.len() as int;
    assert(m2.routes.len() == m1.routes.len());
    assert forall|i: int| 0 <= i < m1.routes.len() implies #[trigger] m2.routes[i] == m1.routes[i] by {
        assert(same_identity(m1.routes[i], m2.routes[i]));
        if m1.routes[i].webhook_id == w && names.contains(m1.routes[i].repo_name) {
            assert(m2.routes[i].last_updated_by == actor);
            if i < n0 {
                assert(same_identity(m0t.routes[i], m1.routes[i]));
            }
            assert(m1.routes[i].last_updated_by == actor);
            assert(t2[m2.routes[i].repo_name] == t1[m1.routes[i].repo_name]);
        }
    }
    assert(m2.routes =~= m1.routes);
}

/// Deleting a webhook a second time changes nothing and is no error.
pub proof fn law_delete_webhook_twice(m: RegistryModel, t: Seq<char>, id: Seq<char>, now1: nat, now2: nat)
    ensures
        ({
            let m1 = m.with_tenant(t, now1).without_webhook(t, id);
            m1.with_tenant(t, now2).without_webhook(t, id) == m1
        }),
{
    let m0 = m.with_tenant(t, now1);
    let m1 = m0.without_webhook(t, id);
    lemma_with_tenant(m, t, now1, now2);
    assert(m1.has_tenant(t)) by {
        let k = choose|k: int| 0 <= k < m0.tenants.len() && (#[trigger] m0.tenants[k]).id == t;
        assert(m1.tenants[k] == m0.tenants[k]);
    }
    assert(m1.with_tenant(t, now2) == m1);
    let pw = |x: WebhookModel| !(x.id == id && x.tenant_id == t);
    let pr = |r: RouteModel| !(r.webhook_id == id && r.tenant_id == t);
    broadcast use vstd::seq_lib::group_filter_ensures;
    lemma_filter_none(m1.webhooks, pw);
    lemma_filter_none(m1.routes, pr);
    assert(m1.without_webhook(t, id) =~= m1);
}

} // verus!
