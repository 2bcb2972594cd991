use smg::record::{RouteInfo, Timestamp};
use smg::sitemap_xml::{
    emit, generate, lastmod_text, push_url_entry, sitemap_markup, Markup, Version, XmlError,
};

fn route(route: &str, stamp: Option<Timestamp>) -> RouteInfo {
    RouteInfo {
        route: route.to_string(),
        path: format!("app{}/page.tsx", route),
        label: String::new(),
        description: String::new(),
        last_modified: stamp,
    }
}

fn declaration() -> Markup {
    Markup::Declaration { version: Version::V10, encoding: "UTF-8".to_string(), standalone: None }
}

fn rendered(routes: &Vec<RouteInfo>, base_url: &str) -> String {
    String::from_utf8(generate(routes, base_url).unwrap()).unwrap()
}

const HEAD: &str = "<?xml version=\"1.0\" encoding=\"UTF-8\"?><urlset xmlns=\"http://www.sitemaps.org/schemas/sitemap/0.9\" xmlns:xsi=\"http://www.w3.org/2001/XMLSchema-instance\" xsi:schemaLocation=\"http://www.sitemaps.org/schemas/sitemap/0.9 http://www.sitemaps.org/schemas/sitemap/0.9/sitemap.xsd\"";

#[test]
fn url_without_modification_time_has_no_lastmod() {
    let text = rendered(&vec![route("/about", None)], "https://x.com/");
    assert!(text.contains("<url><loc>https://x.com/about</loc></url>"));
    assert!(!text.contains("lastmod"));
    assert_eq!(text, format!("{}><url><loc>https://x.com/about</loc></url></urlset>", HEAD));
}

#[test]
fn lastmod_is_utc_with_seconds_precision() {
    let stamp = Timestamp { seconds: 1704164645, nanos: 987_654_321 };
    let text = rendered(&vec![route("/", Some(stamp))], "https://x.com");
    assert_eq!(
        text,
        format!(
            "{}><url><loc>https://x.com/</loc><lastmod>2024-01-02T03:04:05Z</lastmod></url></urlset>",
            HEAD
        )
    );
    assert_eq!(lastmod_text(&stamp), Some("2024-01-02T03:04:05Z".to_string()));
    assert_eq!(
        lastmod_text(&Timestamp { seconds: 0, nanos: 0 }),
        Some("1970-01-01T00:00:00Z".to_string())
    );
    assert_eq!(
        lastmod_text(&Timestamp { seconds: -1, nanos: 0 }),
        Some("1969-12-31T23:59:59Z".to_string())
    );
}

#[test]
fn document_without_routes_is_an_empty_urlset() {
    assert_eq!(rendered(&Vec::new(), "https://x.com"), format!("{} />", HEAD));
}

#[test]
fn routes_are_written_in_the_given_order() {
    let text = rendered(&vec![route("/b", None), route("/a", None)], "https://x.com//");
    assert_eq!(
        text,
        format!(
            "{}><url><loc>https://x.com/b</loc></url><url><loc>https://x.com/a</loc></url></urlset>",
            HEAD
        )
    );
}

#[test]
fn text_is_escaped_by_the_writer() {
    let text = rendered(&vec![route("/a&b", None)], "https://x.com");
    assert!(text.contains("<loc>https://x.com/a&amp;b</loc>"));
}

#[test]
fn time_out_of_range_is_an_error() {
    let far = Timestamp { seconds: i64::MAX, nanos: 0 };
    assert_eq!(generate(&vec![route("/", Some(far))], "https://x.com"), Err(XmlError::Timestamp));
    assert_eq!(lastmod_text(&far), None);
    let bad_nanos = Timestamp { seconds: 0, nanos: 2_000_000_000 };
    assert_eq!(
        generate(&vec![route("/a", None), route("/b", Some(bad_nanos))], "https://x.com"),
        Err(XmlError::Timestamp)
    );
    assert!(!XmlError::Timestamp.message().is_empty());
    assert!(!XmlError::Writer.message().is_empty());
}

#[test]
fn writer_refuses_a_close_without_an_open() {
    assert_eq!(emit(&vec![Markup::Close]), Err(XmlError::Writer));
    let twice = vec![declaration(), declaration()];
    assert_eq!(emit(&twice), Err(XmlError::Writer));
    let late = vec![Markup::Text("t".to_string()), declaration()];
    assert_eq!(emit(&late), Err(XmlError::Writer));
    let plain = Markup::Open { name: "a".to_string(), namespaces: Vec::new(), attributes: Vec::new() };
    let one_too_many = vec![plain, Markup::Close, Markup::Close];
    assert_eq!(emit(&one_too_many), Err(XmlError::Writer));
}

#[test]
fn emit_writes_what_it_is_given() {
    let events = vec![
        declaration(),
        Markup::Open {
            name: "a".to_string(),
            namespaces: Vec::new(),
            attributes: vec![("k".to_string(), "v".to_string())],
        },
        Markup::Text("t".to_string()),
        Markup::Close,
    ];
    assert_eq!(
        String::from_utf8(emit(&events).unwrap()).unwrap(),
        "<?xml version=\"1.0\" encoding=\"UTF-8\"?><a k=\"v\">t</a>"
    );
}

#[test]
fn markup_of_one_url() {
    let mut events = Vec::new();
    push_url_entry(&mut events, "https://x.com/", &route("/about", None), Some("now".to_string()));
    let plain = |name: &str| Markup::Open {
        name: name.to_string(),
        namespaces: Vec::new(),
        attributes: Vec::new(),
    };
    let expected = vec![
        plain("url"),
        plain("loc"),
        Markup::Text("https://x.com/about".to_string()),
        Markup::Close,
        plain("lastmod"),
        Markup::Text("now".to_string()),
        Markup::Close,
        Markup::Close,
    ];
    assert_eq!(events, expected);
    let whole = sitemap_markup(&vec![route("/about", None)], "https://x.com/", &vec![Some("now".to_string())]);
    assert_eq!(whole.len(), 11);
    assert_eq!(whole[0], declaration());
    assert_eq!(&whole[2..10], &expected[..]);
    assert_eq!(whole[10], Markup::Close);
}

#[test]
fn record_without_a_text_gets_no_lastmod() {
    let routes = vec![route("/a", None), route("/b", None)];
    let events = sitemap_markup(&routes, "https://x.com", &vec![Some("t".to_string())]);
    let text = String::from_utf8(emit(&events).unwrap()).unwrap();
    assert_eq!(
        text,
        format!(
            "{}><url><loc>https://x.com/a</loc><lastmod>t</lastmod></url><url><loc>https://x.com/b</loc></url></urlset>",
            HEAD
        )
    );
}

#[test]
fn declaration_carries_version_and_standalone() {
    let events = vec![
        Markup::Declaration {
            version: Version::V11,
            encoding: "ISO-8859-1".to_string(),
            standalone: Some(true),
        },
        Markup::Open { name: "a".to_string(), namespaces: Vec::new(), attributes: Vec::new() },
        Markup::Close,
    ];
    assert_eq!(
        String::from_utf8(emit(&events).unwrap()).unwrap(),
        "<?xml version=\"1.1\" encoding=\"ISO-8859-1\" standalone=\"yes\"?><a />"
    );
}

#[test]
fn events_without_declaration_and_unclosed_elements_are_accepted() {
    let open = |name: &str| Markup::Open {
        name: name.to_string(),
        namespaces: vec![("p".to_string(), "urn:p".to_string())],
        attributes: Vec::new(),
    };
    assert!(emit(&vec![open("a"), open("b"), Markup::Text("t".to_string())]).is_ok());
    assert!(emit(&vec![Markup::Text("t".to_string())]).is_ok());
    assert!(emit(&Vec::new()).is_ok());
    assert!(emit(&vec![open("a"), Markup::Close, open("b"), Markup::Close]).is_ok());
}

#[test]
fn rendering_twice_gives_the_same_bytes() {
    let routes = vec![
        route("/", Some(Timestamp { seconds: 1704164645, nanos: 1 })),
        route("/about", None),
    ];
    let first = generate(&routes, "https://x.com/");
    let second = generate(&routes, "https://x.com/");
    assert!(first.is_ok());
    assert_eq!(first, second);
}
