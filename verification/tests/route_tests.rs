use smg::route::{is_excluded_path, is_page_file, path_to_route, ScanError};

#[test]
fn root_page_gives_root_route() {
    assert_eq!(path_to_route("app", "app/page.tsx"), Ok("/".to_string()));
}

#[test]
fn dynamic_segment_becomes_parameter() {
    assert_eq!(path_to_route("app", "app/blog/[slug]/page.tsx"), Ok("/blog/:slug".to_string()));
}

#[test]
fn catch_all_keeps_its_dots() {
    assert_eq!(path_to_route("app", "app/docs/[...slug]/page.tsx"), Ok("/docs/:...slug".to_string()));
}

#[test]
fn route_group_is_elided() {
    assert_eq!(path_to_route("app", "app/(marketing)/about/page.tsx"), Ok("/about".to_string()));
    assert_eq!(path_to_route("app", "app/(a)/(b)/page.tsx"), Ok("/".to_string()));
}

#[test]
fn page_outside_root_is_rejected() {
    assert_eq!(path_to_route("app", "lib/about/page.tsx"), Err(ScanError::OutsideAppDirectory));
}

#[test]
fn page_file_names() {
    assert!(is_page_file("app/page.tsx"));
    assert!(is_page_file("app/x/page.js"));
    assert!(is_page_file("page.jsx"));
    assert!(!is_page_file("app/page.ts"));
    assert!(!is_page_file("app/layout.tsx"));
    assert!(!is_page_file(""));
}

#[test]
fn api_and_private_paths_are_excluded() {
    assert!(is_excluded_path("app/api/health/page.tsx"));
    assert!(is_excluded_path("app/_draft/page.tsx"));
    assert!(is_excluded_path("api/page.tsx"));
    assert!(!is_excluded_path("app/blog/page.tsx"));
    assert!(!is_excluded_path("app/apiary/page.tsx"));
}
