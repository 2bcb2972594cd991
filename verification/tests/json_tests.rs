use smg::record::{RouteInfo, Timestamp};
use smg::sitemap_json::generate;

fn page(route: &str, label: &str, description: &str, seconds: Option<i64>) -> RouteInfo {
    RouteInfo {
        route: route.to_string(),
        path: format!("app{}/page.tsx", route),
        label: label.to_string(),
        description: description.to_string(),
        last_modified: seconds.map(|s| Timestamp { seconds: s, nanos: 7 }),
    }
}

#[test]
fn merge_keeps_label_and_description_and_updates_the_rest() {
    let mut old_about = page("/about", "Team", "Who we are", Some(100));
    old_about.path = "old/path.tsx".to_string();
    let existing = vec![old_about, page("/gone", "Gone", "Removed page", Some(1))];
    let scanned = vec![page("/about", "About", "", Some(200)), page("/new", "New", "", None)];
    let merged = generate(&scanned, Some(&existing));
    assert_eq!(merged.len(), 2);
    assert_eq!(merged[0].route, "/about");
    assert_eq!(merged[0].label, "Team");
    assert_eq!(merged[0].description, "Who we are");
    assert_eq!(merged[0].path, "app/about/page.tsx");
    assert_eq!(merged[0].last_modified, Some(Timestamp { seconds: 200, nanos: 7 }));
    assert_eq!(merged[1], page("/new", "New", "", None));
}

#[test]
fn without_an_earlier_index_records_are_written_as_scanned() {
    let scanned = vec![page("/", "Home", "", Some(1)), page("/about", "About", "", None)];
    assert_eq!(generate(&scanned, None), scanned);
    assert_eq!(generate(&scanned, Some(&Vec::new())), scanned);
    assert_eq!(generate(&Vec::new(), Some(&scanned)), Vec::new());
}

#[test]
fn later_earlier_record_decides_for_a_repeated_route() {
    let existing = vec![page("/a", "One", "first", None), page("/a", "Two", "second", None)];
    let scanned = vec![page("/a", "A", "", None)];
    let merged = generate(&scanned, Some(&existing));
    assert_eq!(merged[0].label, "Two");
    assert_eq!(merged[0].description, "second");
}

#[test]
fn second_run_writes_the_same_index() {
    let existing = vec![page("/about", "Team", "Who we are", Some(1))];
    let scanned = vec![
        page("/", "Home", "", Some(5)),
        page("/about", "About", "", Some(6)),
        page("/blog/:slug", "Slug Detail", "", None),
    ];
    let first = generate(&scanned, Some(&existing));
    let second = generate(&scanned, Some(&first));
    assert_eq!(second, first);
}

#[test]
fn duplicate_copies_every_field() {
    let records = vec![page("/", "Home", "d", Some(9)), page("/x", "X", "", None)];
    assert_eq!(records[0].duplicate(), records[0]);
    assert_eq!(records[1].duplicate(), records[1]);
}
