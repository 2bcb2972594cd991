//! The merge-preserving JSON index: freshly scanned records take over the
//! label and description that an earlier run left for their route.

use crate::assemble::{lemma_output_routes_distinct, output_for, DestinationView};
use crate::config::ConfigView;
use crate::record::{distinct_routes, views, RouteInfo, RouteView};
use vstd::hash_map::StringHashMap;
use vstd::prelude::*;

verus! {

/// The label and description kept for each route of an earlier index. Of
/// two records with one route the later decides.
pub open spec fn persisted(existing: Seq<RouteView>) -> Map<Seq<char>, (Seq<char>, Seq<char>)>
    decreases existing.len(),
{
    if existing.len() == 0 {
        Map::<Seq<char>, (Seq<char>, Seq<char>)>::empty()
    } else {
        persisted(existing.drop_last()).insert(
            existing.last().route,
            (existing.last().label, existing.last().description),
        )
    }
}

/// A record with the kept label and description of its route, if there
/// are any; its path and modification time are never touched.
pub open spec fn merge_one(record: RouteView, kept: Map<Seq<char>, (Seq<char>, Seq<char>)>) -> RouteView {
    if kept.dom().contains(record.route) {
        RouteView {
            route: record.route,
            path: record.path,
            label: kept[record.route].0,
            description: kept[record.route].1,
            last_modified: record.last_modified,
        }
    } else {
        record
    }
}

/// The records to write, given those of the earlier index.
pub open spec fn merged(routes: Seq<RouteView>, existing: Seq<RouteView>) -> Seq<RouteView> {
    routes.map_values(|record: RouteView| merge_one(record, persisted(existing)))
}

/// The earlier index as a sequence: none when there was no readable index.
pub open spec fn earlier(existing: Option<&Vec<RouteInfo>>) -> Seq<RouteView> {
    match existing {
        Some(records) => views(records@),
        None => Seq::<RouteView>::empty(),
    }
}

/// Records that share a route for which nothing was kept carry the same
/// label and description.
pub open spec fn settled(routes: Seq<RouteView>, existing: Seq<RouteView>) -> bool {
    forall|i: int, j: int|
        0 <= i < routes.len() && 0 <= j < routes.len() && (#[trigger] routes[i]).route == (
        #[trigger] routes[j]).route && !persisted(existing).dom().contains(routes[i].route)
            ==> routes[i].label == routes[j].label && routes[i].description
            == routes[j].description
}

/// A route has kept metadata exactly when some earlier record has it.
pub proof fn lemma_persisted_domain(existing: Seq<RouteView>, route: Seq<char>)
    ensures
        persisted(existing).dom().contains(route) <==> exists|i: int|
            0 <= i < existing.len() && (#[trigger] existing[i]).route == route,
    decreases existing.len(),
{
    if existing.len() > 0 {
        let rest = existing.drop_last();
        lemma_persisted_domain(rest, route);
        if exists|i: int| 0 <= i < rest.len() && (#[trigger] rest[i]).route == route {
            let i = choose|i: int| 0 <= i < rest.len() && (#[trigger] rest[i]).route == route;
            assert(existing[i] == rest[i]);
        }
        if exists|i: int| 0 <= i < existing.len() && (#[trigger] existing[i]).route == route {
            let i = choose|i: int|
                0 <= i < existing.len() && (#[trigger] existing[i]).route == route;
            if i < rest.len() {
                assert(rest[i] == existing[i]);
            }
        }
    }
}

/// What is kept for a route is what the last earlier record with that
/// route says.
pub proof fn lemma_persisted_is_last(existing: Seq<RouteView>, i: int)
    requires
        0 <= i < existing.len(),
        forall|j: int| i < j < existing.len() ==> (#[trigger] existing[j]).route != existing[i].route,
    ensures
        persisted(existing).dom().contains(existing[i].route),
        persisted(existing)[existing[i].route] == (existing[i].label, existing[i].description),
    decreases existing.len(),
{
    if i < existing.len() - 1 {
        let rest = existing.drop_last();
        assert(existing[existing.len() - 1].route != existing[i].route);
        assert(rest[i] == existing[i]);
        assert forall|j: int| i < j < rest.len() implies (#[trigger] rest[j]).route
            != rest[i].route by {
            assert(rest[j] == existing[j]);
        }
        lemma_persisted_is_last(rest, i);
    }
}

/// A record whose route was in the earlier index keeps the label and
/// description stored there and takes everything else from the new scan.
pub proof fn lemma_merge_keeps_metadata(
    routes: Seq<RouteView>,
    existing: Seq<RouteView>,
    i: int,
    k: int,
)
    requires
        0 <= i < routes.len(),
        0 <= k < existing.len(),
        existing[k].route == routes[i].route,
        forall|j: int| k < j < existing.len() ==> (#[trigger] existing[j]).route != routes[i].route,
    ensures
        merged(routes, existing)[i].label == existing[k].label,
        merged(routes, existing)[i].description == existing[k].description,
        merged(routes, existing)[i].route == routes[i].route,
        merged(routes, existing)[i].path == routes[i].path,
        merged(routes, existing)[i].last_modified == routes[i].last_modified,
{
    lemma_persisted_is_last(existing, k);
}

/// A record whose route was not in the earlier index is written as scanned.
pub proof fn lemma_merge_leaves_new_routes(
    routes: Seq<RouteView>,
    existing: Seq<RouteView>,
    i: int,
)
    requires
        0 <= i < routes.len(),
        forall|k: int| 0 <= k < existing.len() ==> (#[trigger] existing[k]).route != routes[i].route,
    ensures
        merged(routes, existing)[i] == routes[i],
{
    lemma_persisted_domain(existing, routes[i].route);
}

/// Merging changes neither the number of records nor their routes, paths
/// and modification times.
pub proof fn lemma_merge_keeps_scan(routes: Seq<RouteView>, existing: Seq<RouteView>, i: int)
    requires
        0 <= i < routes.len(),
    ensures
        merged(routes, existing).len() == routes.len(),
        merged(routes, existing)[i].route == routes[i].route,
        merged(routes, existing)[i].path == routes[i].path,
        merged(routes, existing)[i].last_modified == routes[i].last_modified,
{
}

/// A second run over an unchanged project writes the index that the first
/// run wrote.
pub proof fn lemma_second_run_writes_the_same(routes: Seq<RouteView>, existing: Seq<RouteView>)
    requires
        settled(routes, existing),
    ensures
        merged(routes, merged(routes, existing)) == merged(routes, existing),
{
    let first = merged(routes, existing);
    let second = merged(routes, first);
    assert forall|i: int| 0 <= i < routes.len() implies second[i] == first[i] by {
        let route = routes[i].route;
        // The last record of the first run with this route decides the second run.
        let k = last_with_route(first, route, i);
        lemma_persisted_is_last(first, k);
        assert(first[k].route == routes[k].route);
        if persisted(existing).dom().contains(route) {
            assert(first[k].label == persisted(existing)[route].0);
            assert(first[i].label == persisted(existing)[route].0);
        } else {
            assert(first[k] == routes[k]);
            assert(first[i] == routes[i]);
            assert(routes[i].route == routes[k].route);
        }
    }
    assert(second =~= first);
}

/// With one record per route, as a scan delivers them, a second run over an
/// unchanged project writes the index that the first run wrote.
pub proof fn lemma_second_run_after_scan(routes: Seq<RouteView>, existing: Seq<RouteView>)
    requires
        distinct_routes(routes),
    ensures
        merged(routes, merged(routes, existing)) == merged(routes, existing),
{
    assert forall|i: int, j: int|
        0 <= i < routes.len() && 0 <= j < routes.len() && (#[trigger] routes[i]).route == (
        #[trigger] routes[j]).route implies i == j by {
        if i < j {
            assert(routes[i].route != routes[j].route);
        } else if j < i {
            assert(routes[j].route != routes[i].route);
        }
    }
    lemma_second_run_writes_the_same(routes, existing);
}

/// A second run over an unchanged project rewrites every index as the
/// first run left it: for the records that a scan with one record per route
/// hands to any destination, merging with what the first run wrote gives
/// what the first run wrote.
pub proof fn lemma_second_run_of_output(
    config: ConfigView,
    destination: DestinationView,
    all: Seq<RouteView>,
    existing: Seq<RouteView>,
)
    requires
        distinct_routes(all),
    ensures
        merged(
            output_for(config, destination, all),
            merged(output_for(config, destination, all), existing),
        ) == merged(output_for(config, destination, all), existing),
{
    lemma_output_routes_distinct(config, destination, all);
    lemma_second_run_after_scan(output_for(config, destination, all), existing);
}

/// The last position at or after `i` whose record has the route.
proof fn last_with_route(records: Seq<RouteView>, route: Seq<char>, i: int) -> (k: int)
    requires
        0 <= i < records.len(),
        records[i].route == route,
    ensures
        i <= k < records.len(),
        records[k].route == route,
        forall|j: int| k < j < records.len() ==> (#[trigger] records[j]).route != route,
    decreases records.len() - i,
{
    if forall|j: int| i < j < records.len() ==> (#[trigger] records[j]).route != route {
        i
    } else {
        let j = choose|j: int| i < j < records.len() && (#[trigger] records[j]).route == route;
        last_with_route(records, route, j)
    }
}

/// Merges the records of a new scan with those of the index written by an
/// earlier run, which is `None` when no earlier index could be read.
///
/// Every record whose route occurs in the earlier index takes its label and
/// description from there; the path and the modification time always come
/// from the new scan. The result is what the JSON index is to hold.
pub fn generate(routes: &Vec<RouteInfo>, existing: Option<&Vec<RouteInfo>>) -> (out: Vec<RouteInfo>)
    ensures
        views(out@) == merged(views(routes@), earlier(existing)),
{
    let mut kept: StringHashMap<(String, String)> = StringHashMap::new();
    let ghost old_records = earlier(existing);
    match existing {
        Some(records) => {
            let mut k: usize = 0;
            assert(old_records.take(0) =~= Seq::<RouteView>::empty());
            while k < records.len()
                invariant
                    k <= records.len(),
                    old_records == views(records@),
                    kept@.dom() == persisted(old_records.take(k as int)).dom(),
                    forall|route: Seq<char>| #[trigger]
                        kept@.dom().contains(route) ==> (kept@[route].0@, kept@[route].1@)
                            == persisted(old_records.take(k as int))[route],
                decreases records.len() - k,
            {
                let record = &records[k];
                proof {
                    assert(old_records.take(k + 1).drop_last() =~= old_records.take(k as int));
                    assert(old_records.take(k + 1).last() == record@);
                }
                kept.insert(record.route.clone(), (record.label.clone(), record.description.clone()));
                assert(kept@.dom() =~= persisted(old_records.take(k + 1)).dom());
                k += 1;
            }
            assert(old_records.take(records.len() as int) =~= old_records);
        },
        None => {},
    }
    assert(kept@.dom() =~= persisted(old_records).dom());
    let mut out: Vec<RouteInfo> = Vec::new();
    let mut i: usize = 0;
    while i < routes.len()
        invariant
            i <= routes.len(),
            kept@.dom() == persisted(old_records).dom(),
            forall|route: Seq<char>| #[trigger]
                kept@.dom().contains(route) ==> (kept@[route].0@, kept@[route].1@) == persisted(
                    old_records,
                )[route],
            views(out@) == merged(views(routes@), old_records).take(i as int),
        decreases routes.len() - i,
    {
        let record = &routes[i];
        let next = match kept.get(record.route.as_str()) {
            Some(pair) => RouteInfo {
                route: record.route.clone(),
                path: record.path.clone(),
                label: pair.0.clone(),
                description: pair.1.clone(),
                last_modified: record.last_modified,
            },
            None => record.duplicate(),
        };
        proof {
            assert(kept@.dom().contains(record.route@) == persisted(old_records).dom().contains(
                record@.route,
            ));
            assert(next@ == merge_one(record@, persisted(old_records)));
        }
        let ghost before = views(out@);
        out.push(next);
        assert(views(out@) =~= before.push(next@));
        assert(views(out@) =~= merged(views(routes@), old_records).take(i + 1));
        i += 1;
    }
    assert(merged(views(routes@), old_records).take(routes.len() as int) =~= merged(
        views(routes@),
        old_records,
    ));
    out
}

} // verus!
