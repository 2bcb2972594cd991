use smg::record::{RouteInfo, Timestamp};
use smg::route::{find_app_directory, relative_path, ScanError};
use smg::scanner::{scan_project, PageEntry};

fn entry(path: &str, seconds: Option<i64>) -> PageEntry {
    PageEntry {
        path: path.to_string(),
        modified: seconds.map(|s| Timestamp { seconds: s, nanos: 0 }),
    }
}

#[test]
fn scan_skips_api_and_private_pages() {
    let entries = vec![
        entry("app/page.tsx", Some(10)),
        entry("app/blog/[slug]/page.tsx", None),
        entry("app/api/health/page.tsx", Some(30)),
        entry("app/_draft/page.tsx", Some(40)),
    ];
    let records = scan_project("", "app", &entries).unwrap();
    let expected = vec![
        RouteInfo {
            route: "/".to_string(),
            path: "app/page.tsx".to_string(),
            label: "Home".to_string(),
            description: String::new(),
            last_modified: Some(Timestamp { seconds: 10, nanos: 0 }),
        },
        RouteInfo {
            route: "/blog/:slug".to_string(),
            path: "app/blog/[slug]/page.tsx".to_string(),
            label: "Slug Detail".to_string(),
            description: String::new(),
            last_modified: None,
        },
    ];
    assert_eq!(records, expected);
}

#[test]
fn scan_ignores_files_that_are_not_pages() {
    let entries = vec![
        entry("app", None),
        entry("app/layout.tsx", Some(1)),
        entry("app/about", None),
        entry("app/about/page.js", Some(2)),
        entry("app/about/page.module.css", Some(3)),
    ];
    let records = scan_project(".", "./app", &entries_with_dot(&entries)).unwrap();
    assert_eq!(records.len(), 1);
    assert_eq!(records[0].route, "/about");
    assert_eq!(records[0].path, "app/about/page.js");
    assert_eq!(records[0].label, "About");
    assert_eq!(records[0].description, "");
}

fn entries_with_dot(entries: &Vec<PageEntry>) -> Vec<PageEntry> {
    entries
        .iter()
        .map(|e| PageEntry { path: format!("./{}", e.path), modified: e.modified })
        .collect()
}

#[test]
fn scan_works_under_src_app() {
    let entries = vec![entry("/site/src/app/(shop)/cart/page.jsx", Some(5))];
    let records = scan_project("/site", "/site/src/app", &entries).unwrap();
    assert_eq!(records.len(), 1);
    assert_eq!(records[0].route, "/cart");
    assert_eq!(records[0].path, "src/app/(shop)/cart/page.jsx");
    assert_eq!(records[0].label, "Cart");
}

#[test]
fn later_page_replaces_earlier_one_with_the_same_route() {
    let entries = vec![
        entry("app/(a)/about/page.tsx", Some(1)),
        entry("app/blog/page.tsx", Some(2)),
        entry("app/(b)/about/page.tsx", Some(3)),
    ];
    let records = scan_project("", "app", &entries).unwrap();
    assert_eq!(records.len(), 2);
    assert_eq!(records[0].route, "/about");
    assert_eq!(records[0].path, "app/(b)/about/page.tsx");
    assert_eq!(records[0].last_modified, Some(Timestamp { seconds: 3, nanos: 0 }));
    assert_eq!(records[1].route, "/blog");
}

#[test]
fn page_outside_the_route_root_fails_the_scan() {
    let entries = vec![entry("app/page.tsx", None), entry("other/page.tsx", None)];
    assert_eq!(scan_project("", "app", &entries), Err(ScanError::OutsideAppDirectory));
}

#[test]
fn page_outside_the_project_fails_the_scan() {
    let entries = vec![entry("app/page.tsx", None)];
    assert_eq!(scan_project("elsewhere", "app", &entries), Err(ScanError::OutsideProject));
}

#[test]
fn excluded_page_outside_the_root_is_not_an_error() {
    let entries = vec![entry("other/api/page.tsx", None)];
    assert_eq!(scan_project("", "app", &entries), Ok(Vec::new()));
}

#[test]
fn app_directory_is_preferred_over_src_app() {
    assert_eq!(find_app_directory("proj", true, true), Ok("proj/app".to_string()));
    assert_eq!(find_app_directory("proj/", true, false), Ok("proj/app".to_string()));
    assert_eq!(find_app_directory("proj", false, true), Ok("proj/src/app".to_string()));
    assert_eq!(find_app_directory("", false, true), Ok("src/app".to_string()));
    assert_eq!(find_app_directory(".", true, false), Ok("./app".to_string()));
}

#[test]
fn missing_app_directory_is_an_error() {
    assert_eq!(find_app_directory("proj", false, false), Err(ScanError::AppDirectoryNotFound));
    assert_eq!(
        ScanError::AppDirectoryNotFound.message(),
        "Could not find app directory in project"
    );
    assert!(!ScanError::OutsideAppDirectory.message().is_empty());
    assert!(!ScanError::OutsideProject.message().is_empty());
}

#[test]
fn relative_path_strips_the_root() {
    assert_eq!(relative_path("/a/b", "/a/b/c/d.txt"), Some("c/d.txt".to_string()));
    assert_eq!(relative_path(".", "./app/page.tsx"), Some("app/page.tsx".to_string()));
    assert_eq!(relative_path("a", "a"), Some(String::new()));
    assert_eq!(relative_path("/a", "a/b"), None);
    assert_eq!(relative_path("a/b", "a/c/b"), None);
}
