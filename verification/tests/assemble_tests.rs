use smg::assemble::{assemble, routes_for, sort_by_route, Destination};
use smg::config::{Config, CustomRoutes, CustomSitemap};
use smg::record::RouteInfo;

fn record(route: &str) -> RouteInfo {
    RouteInfo {
        route: route.to_string(),
        path: format!("app{}/page.tsx", route),
        label: String::new(),
        description: String::new(),
        last_modified: None,
    }
}

fn routes_in(records: &Vec<RouteInfo>) -> Vec<String> {
    records.iter().map(|r| r.route.clone()).collect()
}

fn names(items: &[&str]) -> Vec<String> {
    items.iter().map(|s| s.to_string()).collect()
}

#[test]
fn children_exclusion_removes_descendants_from_main_outputs() {
    let mut config = Config::default();
    config.excluded_routes.children = names(&["/blog"]);
    let all = vec![record("/blog/:slug"), record("/")];
    let plan = assemble(&config, &all);
    assert_eq!(routes_in(&plan.main_json), names(&["/"]));
    assert_eq!(routes_in(&plan.main_xml), names(&["/"]));
    assert!(plan.custom.is_empty());
}

#[test]
fn docs_sitemap_scenario() {
    let mut config = Config::default();
    config.custom_sitemaps = vec![(
        "docs".to_string(),
        CustomSitemap {
            output: "docs.json".to_string(),
            include_in_main_json: false,
            include_in_main_xml: true,
            routes: CustomRoutes { exact: vec![], children: names(&["/docs"]), patterns: vec![] },
        },
    )];
    let all = vec![record("/docs/intro"), record("/about"), record("/docs")];
    let plan = assemble(&config, &all);
    assert_eq!(plan.custom.len(), 1);
    assert_eq!(plan.custom[0].name, "docs");
    assert_eq!(plan.custom[0].output, "docs.json");
    assert_eq!(routes_in(&plan.custom[0].routes), names(&["/docs", "/docs/intro"]));
    assert_eq!(routes_in(&plan.main_xml), names(&["/about", "/docs", "/docs/intro"]));
    assert_eq!(routes_in(&plan.main_json), names(&["/about"]));
}

#[test]
fn excluded_route_stays_in_its_custom_sitemap() {
    let mut config = Config::default();
    config.excluded_routes.exact = names(&["/docs/secret"]);
    config.custom_sitemaps = vec![(
        "docs".to_string(),
        CustomSitemap {
            output: "docs.json".to_string(),
            include_in_main_json: true,
            include_in_main_xml: true,
            routes: CustomRoutes { exact: vec![], children: names(&["/docs"]), patterns: vec![] },
        },
    )];
    let all = vec![record("/docs/secret"), record("/docs")];
    let plan = assemble(&config, &all);
    assert_eq!(routes_in(&plan.main_json), names(&["/docs"]));
    assert_eq!(routes_in(&plan.main_xml), names(&["/docs"]));
    assert_eq!(routes_in(&plan.custom[0].routes), names(&["/docs", "/docs/secret"]));
}

#[test]
fn custom_sitemap_without_routes_is_left_out() {
    let mut config = Config::default();
    config.custom_sitemaps = vec![
        (
            "empty".to_string(),
            CustomSitemap {
                output: "empty.json".to_string(),
                include_in_main_json: true,
                include_in_main_xml: true,
                routes: CustomRoutes { exact: names(&["/nowhere"]), children: vec![], patterns: vec![] },
            },
        ),
        (
            "home".to_string(),
            CustomSitemap {
                output: "home.json".to_string(),
                include_in_main_json: true,
                include_in_main_xml: true,
                routes: CustomRoutes { exact: names(&["/"]), children: vec![], patterns: vec![] },
            },
        ),
    ];
    let all = vec![record("/"), record("/about")];
    let plan = assemble(&config, &all);
    assert_eq!(plan.custom.len(), 1);
    assert_eq!(plan.custom[0].name, "home");
    assert_eq!(routes_in(&plan.custom[0].routes), names(&["/"]));
    assert_eq!(routes_in(&plan.main_json), names(&["/", "/about"]));
}

#[test]
fn veto_keeps_route_out_of_main_json_output() {
    let mut config = Config::default();
    config.custom_sitemaps = vec![
        (
            "keep".to_string(),
            CustomSitemap {
                output: "keep.json".to_string(),
                include_in_main_json: true,
                include_in_main_xml: true,
                routes: CustomRoutes { exact: names(&["/both"]), children: vec![], patterns: vec![] },
            },
        ),
        (
            "veto".to_string(),
            CustomSitemap {
                output: "veto.json".to_string(),
                include_in_main_json: false,
                include_in_main_xml: true,
                routes: CustomRoutes { exact: names(&["/both"]), children: vec![], patterns: vec![] },
            },
        ),
    ];
    let all = vec![record("/both"), record("/free")];
    assert_eq!(routes_in(&routes_for(&config, &Destination::MainJson, &all)), names(&["/free"]));
    assert_eq!(
        routes_in(&routes_for(&config, &Destination::MainXml, &all)),
        names(&["/both", "/free"])
    );
    assert_eq!(
        routes_in(&routes_for(&config, &Destination::Custom("veto".to_string()), &all)),
        names(&["/both"])
    );
    assert!(config.admits(&Destination::Custom("keep".to_string()), "/both"));
    assert!(!config.admits(&Destination::MainJson, "/both"));
}

#[test]
fn sort_is_by_plain_string_order_and_stable() {
    let mut first = record("/b");
    first.label = "first".to_string();
    let mut second = record("/b");
    second.label = "second".to_string();
    let all = vec![record("/b/c"), first, record("/a"), record("/B"), second, record("/"), record("/a-b")];
    let sorted = sort_by_route(&all);
    assert_eq!(routes_in(&sorted), names(&["/", "/B", "/a", "/a-b", "/b", "/b", "/b/c"]));
    assert_eq!(sorted[4].label, "first");
    assert_eq!(sorted[5].label, "second");
    let mut expected = all.clone();
    expected.sort_by(|a, b| a.route.cmp(&b.route));
    assert_eq!(sorted, expected);
    assert_eq!(sort_by_route(&Vec::new()), Vec::new());
}
