use vstd::prelude::*;

use crate::types::{RouteModel, SnapshotRouteModel};

verus! {

/// Where a route sends, and what it lets through.
pub struct RouteContent {
    pub channel_id: Seq<char>,
    pub events: Seq<Seq<char>>,
}

/// The routes of webhook `w` keyed by stored repository name.
pub open spec fn route_table(rs: Seq<RouteModel>, w: Seq<char>) -> Map<Seq<char>, RouteContent>
    decreases rs.len(),
{
    if rs.len() == 0 {
        Map::empty()
    } else {
        let rest = route_table(rs.drop_last(), w);
        let r = rs.last();
        if r.webhook_id == w {
            rest.insert(r.repo_name, RouteContent { channel_id: r.channel_id, events: r.events })
        } else {
            rest
        }
    }
}

/// No webhook routes one repository name twice.
pub open spec fn names_unique(rs: Seq<RouteModel>) -> bool {
    forall|i: int, j: int|
        0 <= i < j < rs.len() && (#[trigger] rs[i]).webhook_id == (#[trigger] rs[j]).webhook_id
            ==> rs[i].repo_name != rs[j].repo_name
}

/// The table after merging snapshot entries into it in order, each entry overwriting the route
/// of its name or adding one, with how many were added and how many overwritten.
pub open spec fn merge(table: Map<Seq<char>, RouteContent>, entries: Seq<SnapshotRouteModel>) -> (
    Map<Seq<char>, RouteContent>,
    nat,
    nat,
)
    decreases entries.len(),
{
    if entries.len() == 0 {
        (table, 0, 0)
    } else {
        let (t, inserted, updated) = merge(table, entries.drop_last());
        let e = entries.last();
        let t2 = t.insert(e.repo_name, RouteContent { channel_id: e.channel_id, events: e.events });
        if t.dom().contains(e.repo_name) {
            (t2, inserted, updated + 1)
        } else {
            (t2, inserted + 1, updated)
        }
    }
}

/// The names of the entries.
pub open spec fn entry_names(entries: Seq<SnapshotRouteModel>) -> Set<Seq<char>> {
    Set::new(|k: Seq<char>| exists|i: int| 0 <= i < entries.len() && (#[trigger] entries[i]).repo_name == k)
}

/// The names of a list of entries are those of all but the last, and the last's.
pub proof fn lemma_entry_names_last(entries: Seq<SnapshotRouteModel>)
    requires
        entries.len() > 0,
    ensures
        entry_names(entries) == entry_names(entries.drop_last()).insert(entries.last().repo_name),
{
    let n = entries.len() - 1;
    assert forall|k: Seq<char>| entry_names(entries).contains(k) implies entry_names(
        entries.drop_last(),
    ).insert(entries[n].repo_name).contains(k) by {
        let i = choose|i: int| 0 <= i < entries.len() && (#[trigger] entries[i]).repo_name == k;
        if i < n {
            assert(entries.drop_last()[i] == entries[i]);
        }
    }
    assert forall|k: Seq<char>| entry_names(entries.drop_last()).insert(entries[n].repo_name).contains(k)
        implies entry_names(entries).contains(k) by {
        if k != entries[n].repo_name {
            let i = choose|i: int|
                0 <= i < entries.drop_last().len() && (#[trigger] entries.drop_last()[i]).repo_name == k;
            assert(entries[i] == entries.drop_last()[i]);
        }
    }
    assert(entry_names(entries) =~= entry_names(entries.drop_last()).insert(entries[n].repo_name));
}

/// In a webhook's table, the name of each of its routes maps to what that route holds.
pub proof fn lemma_table_value(rs: Seq<RouteModel>, w: Seq<char>, i: int)
    requires
        names_unique(rs),
        0 <= i < rs.len(),
        rs[i].webhook_id == w,
    ensures
        route_table(rs, w).dom().contains(rs[i].repo_name),
        route_table(rs, w)[rs[i].repo_name] == (RouteContent { channel_id: rs[i].channel_id, events: rs[i].events }),
    decreases rs.len(),
{
    if i < rs.len() - 1 {
        assert(names_unique(rs.drop_last())) by {
            assert forall|a: int, b: int|
                0 <= a < b < rs.drop_last().len() && (#[trigger] rs.drop_last()[a]).webhook_id
                    == (#[trigger] rs.drop_last()[b]).webhook_id implies rs.drop_last()[a].repo_name
                != rs.drop_last()[b].repo_name by {
                assert(rs[a] == rs.drop_last()[a] && rs[b] == rs.drop_last()[b]);
            }
        }
        lemma_table_value(rs.drop_last(), w, i);
        assert(rs.drop_last()[i] == rs[i]);
        let l = rs.last();
        if l.webhook_id == w {
            assert(rs[rs.len() - 1] == l);
            assert(l.repo_name != rs[i].repo_name);
        }
    }
}

/// A name is in the table exactly when a route of the webhook has it.
pub proof fn lemma_table_dom(rs: Seq<RouteModel>, w: Seq<char>, k: Seq<char>)
    ensures
        route_table(rs, w).dom().contains(k) <==> exists|i: int|
            0 <= i < rs.len() && (#[trigger] rs[i]).webhook_id == w && rs[i].repo_name == k,
    decreases rs.len(),
{
    if rs.len() > 0 {
        lemma_table_dom(rs.drop_last(), w, k);
        if exists|i: int| 0 <= i < rs.len() && (#[trigger] rs[i]).webhook_id == w && rs[i].repo_name == k {
            let i = choose|i: int| 0 <= i < rs.len() && (#[trigger] rs[i]).webhook_id == w && rs[i].repo_name == k;
            if i < rs.len() - 1 {
                assert(rs.drop_last()[i] == rs[i]);
            }
        }
        if exists|i: int|
            0 <= i < rs.drop_last().len() && (#[trigger] rs.drop_last()[i]).webhook_id == w
                && rs.drop_last()[i].repo_name == k {
            let i = choose|i: int|
                0 <= i < rs.drop_last().len() && (#[trigger] rs.drop_last()[i]).webhook_id == w
                    && rs.drop_last()[i].repo_name == k;
            assert(rs[i] == rs.drop_last()[i]);
        }
    }
}

/// Appending a route adds its name to its own webhook's table and leaves the other tables.
pub proof fn lemma_table_push(rs: Seq<RouteModel>, r: RouteModel, w: Seq<char>)
    ensures
        route_table(rs.push(r), w) == if r.webhook_id == w {
            route_table(rs, w).insert(r.repo_name, RouteContent { channel_id: r.channel_id, events: r.events })
        } else {
            route_table(rs, w)
        },
{
    assert(rs.push(r).drop_last() =~= rs);
}

/// Rewriting where a route sends changes its entry in its own webhook's table alone.
pub proof fn lemma_table_update(rs: Seq<RouteModel>, i: int, r: RouteModel, w: Seq<char>)
    requires
        0 <= i < rs.len(),
        names_unique(rs),
        r.webhook_id == rs[i].webhook_id,
        r.repo_name == rs[i].repo_name,
    ensures
        route_table(rs.update(i, r), w) == if r.webhook_id == w {
            route_table(rs, w).insert(r.repo_name, RouteContent { channel_id: r.channel_id, events: r.events })
        } else {
            route_table(rs, w)
        },
    decreases rs.len(),
{
    let c = RouteContent { channel_id: r.channel_id, events: r.events };
    if i == rs.len() - 1 {
        assert(rs.update(i, r).drop_last() =~= rs.drop_last());
        if r.webhook_id == w {
            assert(route_table(rs.update(i, r), w) =~= route_table(rs, w).insert(r.repo_name, c));
        }
    } else {
        assert(names_unique(rs.drop_last())) by {
            assert forall|a: int, b: int|
                0 <= a < b < rs.drop_last().len() && (#[trigger] rs.drop_last()[a]).webhook_id
                    == (#[trigger] rs.drop_last()[b]).webhook_id implies rs.drop_last()[a].repo_name
                != rs.drop_last()[b].repo_name by {
                assert(rs[a] == rs.drop_last()[a] && rs[b] == rs.drop_last()[b]);
            }
        }
        lemma_table_update(rs.drop_last(), i, r, w);
        assert(rs.update(i, r).drop_last() =~= rs.drop_last().update(i, r));
        assert(rs.update(i, r).last() == rs.last());
        let l = rs.last();
        if l.webhook_id == w && r.webhook_id == w {
            assert(rs[rs.len() - 1] == l);
            assert(l.repo_name != r.repo_name);
            assert(route_table(rs.update(i, r), w) =~= route_table(rs, w).insert(r.repo_name, c));
        }
    }
}

/// After a merge every entry's name is in the table, and so is every name that was there.
pub proof fn lemma_merge_dom(table: Map<Seq<char>, RouteContent>, entries: Seq<SnapshotRouteModel>)
    ensures
        merge(table, entries).0.dom() == table.dom() + entry_names(entries),
        merge(table, entries).1 + merge(table, entries).2 == entries.len(),
    decreases entries.len(),
{
    if entries.len() > 0 {
        lemma_merge_dom(table, entries.drop_last());
        let n = entries.len() - 1;
        assert(entry_names(entries) =~= entry_names(entries.drop_last()).insert(entries[n].repo_name)) by {
            assert forall|k: Seq<char>| entry_names(entries).contains(k) implies entry_names(
                entries.drop_last(),
            ).insert(entries[n].repo_name).contains(k) by {
                let i = choose|i: int| 0 <= i < entries.len() && (#[trigger] entries[i]).repo_name == k;
                if i < n {
                    assert(entries.drop_last()[i] == entries[i]);
                }
            }
            assert forall|k: Seq<char>| entry_names(entries.drop_last()).contains(k) implies entry_names(
                entries,
            ).contains(k) by {
                let i = choose|i: int|
                    0 <= i < entries.drop_last().len() && (#[trigger] entries.drop_last()[i]).repo_name == k;
                assert(entries[i] == entries.drop_last()[i]);
            }
        }
        assert(merge(table, entries).0.dom() =~= table.dom() + entry_names(entries));
    } else {
        assert(entry_names(entries) =~= Set::empty());
        assert(table.dom() + Set::empty() =~= table.dom());
    }
}

/// Merging into a table is overlaying it with what the entries alone merge into.
pub proof fn lemma_merge_overlay(table: Map<Seq<char>, RouteContent>, entries: Seq<SnapshotRouteModel>)
    ensures
        merge(table, entries).0 == table.union_prefer_right(merge(Map::empty(), entries).0),
    decreases entries.len(),
{
    if entries.len() == 0 {
        assert(table.union_prefer_right(Map::empty()) =~= table);
    } else {
        lemma_merge_overlay(table, entries.drop_last());
        let e = entries.last();
        let c = RouteContent { channel_id: e.channel_id, events: e.events };
        let md = merge(Map::<Seq<char>, RouteContent>::empty(), entries.drop_last()).0;
        assert(table.union_prefer_right(md.insert(e.repo_name, c)) =~= table.union_prefer_right(md).insert(
            e.repo_name,
            c,
        ));
    }
}

/// Merging the same entries a second time leaves the table as the first merge left it.
pub proof fn lemma_merge_twice(table: Map<Seq<char>, RouteContent>, entries: Seq<SnapshotRouteModel>)
    ensures
        merge(merge(table, entries).0, entries).0 == merge(table, entries).0,
{
    let m = merge(Map::<Seq<char>, RouteContent>::empty(), entries).0;
    lemma_merge_overlay(table, entries);
    lemma_merge_overlay(merge(table, entries).0, entries);
    assert(table.union_prefer_right(m).union_prefer_right(m) =~= table.union_prefer_right(m));
}

/// Merging entries whose names are all in the table overwrites each and adds none.
pub proof fn lemma_merge_all_present(table: Map<Seq<char>, RouteContent>, entries: Seq<SnapshotRouteModel>)
    requires
        forall|i: int| 0 <= i < entries.len() ==> table.dom().contains(#[trigger] entries[i].repo_name),
    ensures
        merge(table, entries).1 == 0,
        merge(table, entries).2 == entries.len(),
    decreases entries.len(),
{
    if entries.len() > 0 {
        let d = entries.drop_last();
        assert forall|i: int| 0 <= i < d.len() implies table.dom().contains(#[trigger] d[i].repo_name) by {
            assert(d[i] == entries[i]);
        }
        lemma_merge_all_present(table, d);
        lemma_merge_dom(table, d);
        assert(table.dom().contains(entries[entries.len() - 1].repo_name));
    }
}

/// Merging entries of distinct names, none of them in the table, adds each and overwrites none.
pub proof fn lemma_merge_all_fresh(table: Map<Seq<char>, RouteContent>, entries: Seq<SnapshotRouteModel>)
    requires
        forall|i: int| 0 <= i < entries.len() ==> !table.dom().contains(#[trigger] entries[i].repo_name),
        forall|i: int, j: int|
            0 <= i < j < entries.len() ==> (#[trigger] entries[i]).repo_name != (#[trigger] entries[j]).repo_name,
    ensures
        merge(table, entries).1 == entries.len(),
        merge(table, entries).2 == 0,
    decreases entries.len(),
{
    if entries.len() > 0 {
        let d = entries.drop_last();
        let n = entries.len() - 1;
        assert forall|i: int| 0 <= i < d.len() implies !table.dom().contains(#[trigger] d[i].repo_name) by {
            assert(d[i] == entries[i]);
        }
        assert forall|i: int, j: int| 0 <= i < j < d.len() implies (#[trigger] d[i]).repo_name != (
        #[trigger] d[j]).repo_name by {
            assert(d[i] == entries[i] && d[j] == entries[j]);
        }
        lemma_merge_all_fresh(table, d);
        lemma_merge_dom(table, d);
        let k = entries[n].repo_name;
        assert(!table.dom().contains(k));
        if entry_names(d).contains(k) {
            let i = choose|i: int| 0 <= i < d.len() && (#[trigger] d[i]).repo_name == k;
            assert(d[i] == entries[i]);
            assert(entries[i].repo_name != entries[n].repo_name);
        }
        assert(!merge(table, d).0.dom().contains(k));
    }
}

} // verus!
