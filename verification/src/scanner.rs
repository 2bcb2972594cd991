//! The route scan: from the files met while walking the route root to one
//! record per route.

use crate::label::{default_label, default_label_for_route};
use crate::record::{distinct_routes, views, RouteInfo, RouteView, Timestamp};
use crate::route::{
    excluded_path, is_excluded_path, is_page_file, page_file, page_route, path_to_route,
    relative_path, relative_to, ScanError,
};
use vstd::prelude::*;

verus! {

/// A file met during the walk of the route root.
#[derive(Clone, Debug, PartialEq, Eq)]
pub struct PageEntry {
    /// The path of the file, as the walk reports it.
    pub path: String,
    /// When the file was last modified, if that could be read.
    pub modified: Option<Timestamp>,
}

/// The mathematical content of a `PageEntry`.
pub ghost struct EntryView {
    pub path: Seq<char>,
    pub modified: Option<Timestamp>,
}

impl View for PageEntry {
    type V = EntryView;

    open spec fn view(&self) -> EntryView {
        EntryView { path: self.path@, modified: self.modified }
    }
}

/// The views of a sequence of entries.
pub open spec fn entry_views(entries: Seq<PageEntry>) -> Seq<EntryView> {
    entries.map_values(|e: PageEntry| e@)
}

/// The file is a page file and nothing on its path hides it.
pub open spec fn qualifies(path: Seq<char>) -> bool {
    page_file(path) && !excluded_path(path)
}

/// The record a qualifying file gives, or why it gives none.
pub open spec fn record_for(project: Seq<char>, app_dir: Seq<char>, entry: EntryView) -> Result<
    RouteView,
    ScanError,
> {
    match page_route(app_dir, entry.path) {
        None => Err(ScanError::OutsideAppDirectory),
        Some(route) => match relative_to(project, entry.path) {
            None => Err(ScanError::OutsideProject),
            Some(relative) => Ok(
                RouteView {
                    route,
                    path: relative,
                    label: default_label(route),
                    description: Seq::<char>::empty(),
                    last_modified: entry.modified,
                },
            ),
        },
    }
}

/// Some record has the route.
pub open spec fn has_route(records: Seq<RouteView>, route: Seq<char>) -> bool {
    exists|i: int| 0 <= i < records.len() && (#[trigger] records[i]).route == route
}

/// `i` is the first position whose record has the route.
pub open spec fn first_with_route(records: Seq<RouteView>, route: Seq<char>, i: int) -> bool {
    &&& 0 <= i < records.len()
    &&& records[i].route == route
    &&& forall|j: int| 0 <= j < i ==> (#[trigger] records[j]).route != route
}

/// The records after one more record arrives: it takes the place of the
/// record that has its route, or goes to the end if there is none.
pub open spec fn place(records: Seq<RouteView>, record: RouteView) -> Seq<RouteView> {
    if has_route(records, record.route) {
        records.update(choose|i: int| first_with_route(records, record.route, i), record)
    } else {
        records.push(record)
    }
}

/// The outcome of scanning the entries in walk order: files that do not
/// qualify are passed over, the first qualifying file that lies outside the
/// route root or the project ends the scan with an error, and of two files
/// with one route the later takes the place of the earlier.
pub open spec fn scan(project: Seq<char>, app_dir: Seq<char>, entries: Seq<EntryView>) -> Result<
    Seq<RouteView>,
    ScanError,
>
    decreases entries.len(),
{
    if entries.len() == 0 {
        Ok(Seq::<RouteView>::empty())
    } else {
        match scan(project, app_dir, entries.drop_last()) {
            Err(e) => Err(e),
            Ok(records) => if !qualifies(entries.last().path) {
                Ok(records)
            } else {
                match record_for(project, app_dir, entries.last()) {
                    Err(e) => Err(e),
                    Ok(record) => Ok(place(records, record)),
                }
            },
        }
    }
}

/// At most one position is the first with a given route.
pub proof fn lemma_first_with_route_unique(
    records: Seq<RouteView>,
    route: Seq<char>,
    i: int,
    k: int,
)
    requires
        first_with_route(records, route, i),
        first_with_route(records, route, k),
    ensures
        i == k,
{
    if i < k {
        assert(records[i].route != route);
    } else if k < i {
        assert(records[k].route != route);
    }
}

/// Placing a record keeps the routes distinct.
pub proof fn lemma_place_keeps_distinct(records: Seq<RouteView>, record: RouteView)
    requires
        distinct_routes(records),
    ensures
        distinct_routes(place(records, record)),
        has_route(place(records, record), record.route),
{
    let placed = place(records, record);
    if has_route(records, record.route) {
        let w = choose|i: int| 0 <= i < records.len() && (#[trigger] records[i]).route
            == record.route;
        lemma_first_exists(records, record.route, w);
        let k = choose|i: int| first_with_route(records, record.route, i);
        assert(placed[k].route == record.route);
        assert forall|i: int, j: int| 0 <= i < j < placed.len() implies (#[trigger] placed[i]).route
            != (#[trigger] placed[j]).route by {
            assert(records[i].route != records[j].route);
        }
    } else {
        assert(placed[records.len() as int].route == record.route);
        assert forall|i: int, j: int| 0 <= i < j < placed.len() implies (#[trigger] placed[i]).route
            != (#[trigger] placed[j]).route by {
            if j < records.len() {
                assert(records[i].route != records[j].route);
            } else {
                assert(records[i].route != record.route);
            }
        }
    }
}

/// If some record has the route, some position is the first that has it.
pub proof fn lemma_first_exists(records: Seq<RouteView>, route: Seq<char>, w: int)
    requires
        0 <= w < records.len(),
        records[w].route == route,
    ensures
        exists|i: int| first_with_route(records, route, i),
    decreases w,
{
    if forall|j: int| 0 <= j < w ==> (#[trigger] records[j]).route != route {
        assert(first_with_route(records, route, w));
    } else {
        let j = choose|j: int| 0 <= j < w && (#[trigger] records[j]).route == route;
        lemma_first_exists(records, route, j);
    }
}

/// A scan never yields two records with one route.
pub proof fn lemma_scan_routes_distinct(
    project: Seq<char>,
    app_dir: Seq<char>,
    entries: Seq<EntryView>,
)
    ensures
        scan(project, app_dir, entries) matches Ok(records) ==> distinct_routes(records),
    decreases entries.len(),
{
    if entries.len() > 0 {
        lemma_scan_routes_distinct(project, app_dir, entries.drop_last());
        match scan(project, app_dir, entries.drop_last()) {
            Ok(records) => {
                if qualifies(entries.last().path) {
                    match record_for(project, app_dir, entries.last()) {
                        Ok(record) => {
                            lemma_place_keeps_distinct(records, record);
                        },
                        Err(_) => {},
                    }
                }
            },
            Err(_) => {},
        }
    }
}

/// What every record of a scan looks like: its route begins with `/`, its
/// label is the default label of the route, and its description is empty.
pub open spec fn is_fresh(record: RouteView) -> bool {
    &&& record.route.len() >= 1
    &&& record.route[0] == '/'
    &&& record.label == default_label(record.route)
    &&& record.description == Seq::<char>::empty()
}

/// Every record of a scan is fresh.
pub proof fn lemma_scan_records_are_fresh(
    project: Seq<char>,
    app_dir: Seq<char>,
    entries: Seq<EntryView>,
)
    ensures
        scan(project, app_dir, entries) matches Ok(records) ==> forall|k: int|
            0 <= k < records.len() ==> is_fresh(#[trigger] records[k]),
    decreases entries.len(),
{
    if entries.len() > 0 {
        lemma_scan_records_are_fresh(project, app_dir, entries.drop_last());
        match scan(project, app_dir, entries.drop_last()) {
            Ok(before) => {
                if qualifies(entries.last().path) {
                    match record_for(project, app_dir, entries.last()) {
                        Ok(record) => {
                            let after = place(before, record);
                            assert(is_fresh(record));
                            assert forall|k: int| 0 <= k < after.len() implies is_fresh(
                                #[trigger] after[k],
                            ) by {
                                if has_route(before, record.route) {
                                    let at = choose|i: int|
                                        first_with_route(before, record.route, i);
                                    lemma_first_exists(
                                        before,
                                        record.route,
                                        choose|i: int|
                                            0 <= i < before.len() && (#[trigger] before[i]).route
                                                == record.route,
                                    );
                                    if k != at {
                                        assert(after[k] == before[k]);
                                    }
                                } else if k < before.len() {
                                    assert(after[k] == before[k]);
                                }
                            }
                        },
                        Err(_) => {},
                    }
                }
            },
            Err(_) => {},
        }
    }
}

/// Some qualifying entry gives the record.
pub open spec fn has_source(
    project: Seq<char>,
    app_dir: Seq<char>,
    entries: Seq<EntryView>,
    record: RouteView,
) -> bool {
    exists|i: int|
        0 <= i < entries.len() && qualifies((#[trigger] entries[i]).path) && record_for(
            project,
            app_dir,
            entries[i],
        ) == Ok::<RouteView, ScanError>(record)
}

/// Every record of a scan is the record of a qualifying entry: a file that
/// is no page file, or that an `api` or `_` name hides, leaves no record.
pub proof fn lemma_scan_records_have_sources(
    project: Seq<char>,
    app_dir: Seq<char>,
    entries: Seq<EntryView>,
)
    ensures
        scan(project, app_dir, entries) matches Ok(records) ==> forall|k: int|
            0 <= k < records.len() ==> has_source(project, app_dir, entries, #[trigger] records[k]),
    decreases entries.len(),
{
    if entries.len() > 0 {
        let rest = entries.drop_last();
        lemma_scan_records_have_sources(project, app_dir, rest);
        match scan(project, app_dir, rest) {
            Ok(before) => {
                assert forall|k: int| 0 <= k < before.len() implies has_source(
                    project,
                    app_dir,
                    entries,
                    #[trigger] before[k],
                ) by {
                    assert(has_source(project, app_dir, rest, before[k]));
                    let i = choose|i: int|
                        0 <= i < rest.len() && qualifies((#[trigger] rest[i]).path) && record_for(
                            project,
                            app_dir,
                            rest[i],
                        ) == Ok::<RouteView, ScanError>(before[k]);
                    assert(entries[i] == rest[i]);
                }
                if qualifies(entries.last().path) {
                    match record_for(project, app_dir, entries.last()) {
                        Ok(record) => {
                            let after = place(before, record);
                            assert(entries[entries.len() - 1] == entries.last());
                            assert(has_source(project, app_dir, entries, record));
                            assert forall|k: int| 0 <= k < after.len() implies has_source(
                                project,
                                app_dir,
                                entries,
                                #[trigger] after[k],
                            ) by {
                                if has_route(before, record.route) {
                                    let at = choose|i: int|
                                        first_with_route(before, record.route, i);
                                    lemma_first_exists(
                                        before,
                                        record.route,
                                        choose|i: int|
                                            0 <= i < before.len() && (#[trigger] before[i]).route
                                                == record.route,
                                    );
                                    if k != at {
                                        assert(after[k] == before[k]);
                                    }
                                } else if k < before.len() {
                                    assert(after[k] == before[k]);
                                }
                            }
                        },
                        Err(_) => {},
                    }
                }
            },
            Err(_) => {},
        }
    }
}

/// Once a prefix of the entries has failed, the whole scan fails the same way.
pub proof fn lemma_scan_error_sticks(
    project: Seq<char>,
    app_dir: Seq<char>,
    entries: Seq<EntryView>,
    k: int,
)
    requires
        0 <= k <= entries.len(),
        scan(project, app_dir, entries.take(k)) is Err,
    ensures
        scan(project, app_dir, entries) == scan(project, app_dir, entries.take(k)),
    decreases entries.len() - k,
{
    if k < entries.len() {
        assert(entries.take(k + 1).drop_last() =~= entries.take(k));
        lemma_scan_error_sticks(project, app_dir, entries, k + 1);
    } else {
        assert(entries.take(k) =~= entries);
    }
}

/// The first position whose record has the route.
fn find_route(records: &Vec<RouteInfo>, route: &String) -> (r: Option<usize>)
    ensures
        match r {
            Some(i) => first_with_route(views(records@), route@, i as int),
            None => !has_route(views(records@), route@),
        },
{
    let mut i: usize = 0;
    while i < records.len()
        invariant
            i <= records.len(),
            forall|j: int| 0 <= j < i ==> (#[trigger] views(records@)[j]).route != route@,
        decreases records.len() - i,
    {
        if records[i].route == *route {
            assert(views(records@)[i as int].route == route@);
            return Some(i);
        }
        i += 1;
    }
    None
}

/// Puts a record in the place of the one with its route, or at the end.
fn place_record(records: &mut Vec<RouteInfo>, record: RouteInfo)
    ensures
        views(final(records)@) == place(views(old(records)@), record@),
{
    let ghost before = views(records@);
    match find_route(records, &record.route) {
        Some(i) => {
            proof {
                assert(has_route(before, record@.route));
                let k = choose|k: int| first_with_route(before, record@.route, k);
                lemma_first_with_route_unique(before, record@.route, i as int, k);
            }
            records.set(i, record);
            assert(views(records@) =~= before.update(i as int, record@));
        },
        None => {
            records.push(record);
            assert(views(records@) =~= before.push(record@));
        },
    }
}

/// Builds the route records for the files met while walking `app_dir`.
///
/// Files that are not page files, or that lie under an `api` directory or a
/// name starting with `_`, are passed over. Each remaining file gives one
/// record: its route, its path relative to `project_path`, the default label
/// of the route, an empty description and the entry's modification time.
pub fn scan_project(project_path: &str, app_dir: &str, entries: &Vec<PageEntry>) -> (r: Result<
    Vec<RouteInfo>,
    ScanError,
>)
    ensures
        match r {
            Ok(records) => scan(project_path@, app_dir@, entry_views(entries@)) == Ok::<
                Seq<RouteView>,
                ScanError,
            >(views(records@)),
            Err(e) => scan(project_path@, app_dir@, entry_views(entries@)) == Err::<
                Seq<RouteView>,
                ScanError,
            >(e),
        },
{
    let mut records: Vec<RouteInfo> = Vec::new();
    let mut i: usize = 0;
    let ghost all = entry_views(entries@);
    assert(all.take(0) =~= Seq::<EntryView>::empty());
    assert(views(records@) =~= Seq::<RouteView>::empty());
    while i < entries.len()
        invariant
            i <= entries.len(),
            all == entry_views(entries@),
            scan(project_path@, app_dir@, all.take(i as int)) == Ok::<Seq<RouteView>, ScanError>(
                views(records@),
            ),
        decreases entries.len() - i,
    {
        let entry = &entries[i];
        proof {
            assert(all.take(i + 1).drop_last() =~= all.take(i as int));
            assert(all.take(i + 1).last() == entry@);
        }
        let path = entry.path.as_str();
        if is_page_file(path) && !is_excluded_path(path) {
            let route = match path_to_route(app_dir, path) {
                Ok(route) => route,
                Err(e) => {
                    proof {
                        lemma_scan_error_sticks(project_path@, app_dir@, all, i + 1);
                    }
                    return Err(e);
                },
            };
            let relative = match relative_path(project_path, path) {
                Some(relative) => relative,
                None => {
                    proof {
                        lemma_scan_error_sticks(project_path@, app_dir@, all, i + 1);
                    }
                    return Err(ScanError::OutsideProject);
                },
            };
            let label = default_label_for_route(route.as_str());
            let record = RouteInfo {
                route,
                path: relative,
                label,
                description: String::new(),
                last_modified: entry.modified,
            };
            place_record(&mut records, record);
        }
        i += 1;
    }
    assert(all.take(entries.len() as int) =~= all);
    Ok(records)
}

} // verus!
