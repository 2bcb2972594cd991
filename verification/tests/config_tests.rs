use smg::config::{
    default_base_url, default_json_output, default_project_path, default_xml_output,
    pattern_hit, Config, CustomRoutes, CustomSitemap, ExcludedRoutes,
};

fn strings(items: &[&str]) -> Vec<String> {
    items.iter().map(|s| s.to_string()).collect()
}

fn sitemap(json: bool, xml: bool, exact: &[&str], children: &[&str], patterns: &[&str]) -> CustomSitemap {
    CustomSitemap {
        output: "custom.json".to_string(),
        include_in_main_json: json,
        include_in_main_xml: xml,
        routes: CustomRoutes {
            exact: strings(exact),
            children: strings(children),
            patterns: strings(patterns),
        },
    }
}

#[test]
fn defaults_are_as_documented() {
    assert_eq!(default_project_path(), ".");
    assert_eq!(default_xml_output(), "sitemap.xml");
    assert_eq!(default_json_output(), "sitemap.json");
    assert_eq!(default_base_url(), "https://example.com");
    let config = Config::default();
    assert_eq!(config.project, ".");
    assert_eq!(config.xml_output, "sitemap.xml");
    assert_eq!(config.json_output, "sitemap.json");
    assert_eq!(config.base_url, "https://example.com");
    assert_eq!(config.excluded_routes, ExcludedRoutes::default());
    assert!(config.excluded_routes.exact.is_empty());
    assert!(config.excluded_routes.children.is_empty());
    assert!(config.excluded_routes.patterns.is_empty());
    assert!(config.custom_sitemaps.is_empty());
    let custom = CustomSitemap::default();
    assert_eq!(custom.output, "custom_sitemap.json");
    assert!(!custom.include_in_main_json);
    assert!(!custom.include_in_main_xml);
    assert_eq!(custom.routes, CustomRoutes::default());
}

#[test]
fn exact_rule_matches_only_the_route_itself() {
    let mut config = Config::default();
    config.excluded_routes.exact = strings(&["/admin"]);
    assert!(config.is_excluded("/admin"));
    assert!(!config.is_excluded("/admin/users"));
    assert!(!config.is_excluded("/administrator"));
    assert!(!config.is_excluded("/"));
}

#[test]
fn children_rule_matches_the_route_and_its_descendants() {
    let mut config = Config::default();
    config.excluded_routes.children = strings(&["/blog"]);
    assert!(config.is_excluded("/blog"));
    assert!(config.is_excluded("/blog/:slug"));
    assert!(config.is_excluded("/blog/2024/post"));
    assert!(!config.is_excluded("/blogger"));
    assert!(!config.is_excluded("/"));
    assert!(!config.is_excluded("/about/blog"));
}

#[test]
fn pattern_rule_searches_the_route() {
    let mut config = Config::default();
    config.excluded_routes.patterns = strings(&["^/internal", "/:id$"]);
    assert!(config.is_excluded("/internal/tools"));
    assert!(config.is_excluded("/users/:id"));
    assert!(!config.is_excluded("/public/internal"));
    assert!(!config.is_excluded("/users/:id/edit"));
}

#[test]
fn malformed_pattern_is_skipped() {
    let mut config = Config::default();
    config.excluded_routes.patterns = strings(&["(unclosed", "^/ok"]);
    assert!(!config.is_excluded("/(unclosed"));
    assert!(config.is_excluded("/ok/page"));
    assert!(!config.is_excluded("/other"));
}

#[test]
fn pattern_hit_reads_the_outcome() {
    assert!(pattern_hit(Some(true)));
    assert!(!pattern_hit(Some(false)));
    assert!(!pattern_hit(None));
}

#[test]
fn route_may_match_several_custom_sitemaps() {
    let mut config = Config::default();
    config.custom_sitemaps = vec![
        ("docs".to_string(), sitemap(true, true, &[], &["/docs"], &[])),
        ("guides".to_string(), sitemap(true, true, &["/docs/intro"], &["/docs"], &["intro"])),
        ("shop".to_string(), sitemap(true, true, &[], &["/shop"], &[])),
    ];
    assert_eq!(config.get_matching_custom_sitemaps("/docs/intro"), strings(&["docs", "guides"]));
    assert_eq!(config.get_matching_custom_sitemaps("/shop"), strings(&["shop"]));
    assert_eq!(config.get_matching_custom_sitemaps("/about"), Vec::<String>::new());
    assert!(config.in_custom_sitemap("docs", "/docs/intro"));
    assert!(config.in_custom_sitemap("guides", "/docs/intro"));
    assert!(!config.in_custom_sitemap("shop", "/docs/intro"));
    assert!(!config.in_custom_sitemap("missing", "/docs/intro"));
    assert!(config.custom_sitemaps[0].1.matches("/docs"));
    assert!(!config.custom_sitemaps[0].1.matches("/doc"));
}

#[test]
fn veto_wins_over_other_sitemaps() {
    let mut config = Config::default();
    config.custom_sitemaps = vec![
        ("open".to_string(), sitemap(true, true, &[], &["/docs"], &[])),
        ("closed".to_string(), sitemap(false, true, &[], &["/docs/private"], &[])),
    ];
    assert!(config.include_in_main_json("/docs"));
    assert!(!config.include_in_main_json("/docs/private"));
    assert!(!config.include_in_main_json("/docs/private/keys"));
    assert!(config.include_in_main_xml("/docs/private"));
    config.custom_sitemaps.reverse();
    assert!(!config.include_in_main_json("/docs/private"));
    assert!(config.include_in_main_xml("/docs/private"));
}

#[test]
fn xml_flag_is_independent_of_json_flag() {
    let mut config = Config::default();
    config.custom_sitemaps = vec![("x".to_string(), sitemap(true, false, &["/x"], &[], &[]))];
    assert!(config.include_in_main_json("/x"));
    assert!(!config.include_in_main_xml("/x"));
    assert!(config.include_in_main_xml("/y"));
}

#[test]
fn excluded_route_leaves_both_main_outputs() {
    let mut config = Config::default();
    config.excluded_routes.exact = strings(&["/secret"]);
    config.custom_sitemaps = vec![("all".to_string(), sitemap(true, true, &[], &[], &[".*"]))];
    assert!(!config.include_in_main_json("/secret"));
    assert!(!config.include_in_main_xml("/secret"));
    assert!(config.in_custom_sitemap("all", "/secret"));
    assert!(config.include_in_main_json("/public"));
}

#[test]
fn matching_names_are_reported_once() {
    let mut config = Config::default();
    config.custom_sitemaps = vec![
        ("a".to_string(), sitemap(true, true, &["/x"], &["/x"], &["x"])),
        ("b".to_string(), sitemap(true, true, &[], &["/x", "/"], &["^/x$", "x"])),
    ];
    assert_eq!(config.get_matching_custom_sitemaps("/x"), strings(&["a", "b"]));
}
