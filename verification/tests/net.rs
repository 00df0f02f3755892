use robin::html;
use robin::net::{collect_stylesheet_hrefs, is_http, local_path, resolve, resource_from, LinkedCss};

#[test]
fn resolves_relative_urls() {
    assert_eq!(
        resolve("https://example.com/a/b.html", "../style.css").as_deref(),
        Some("https://example.com/style.css")
    );
    assert_eq!(
        resolve("https://example.com/a/b.html", "/x.css").as_deref(),
        Some("https://example.com/x.css")
    );
    assert_eq!(
        resolve("https://example.com/", "https://cdn.com/y.css").as_deref(),
        Some("https://cdn.com/y.css")
    );
}

#[test]
fn unresolvable_urls_give_none() {
    assert_eq!(resolve("not a url", "x.css"), None);
}

#[test]
fn finds_stylesheet_links() {
    let dom = html::parse(
        r#"<head>
                 <link rel="stylesheet" href="/site.css">
                 <link rel="icon" href="/favicon.ico">
                 <link rel="preload stylesheet" href="late.css">
               </head>"#,
    );
    let mut hrefs = Vec::new();
    collect_stylesheet_hrefs(&dom, &mut hrefs);
    assert_eq!(hrefs, vec!["/site.css".to_string(), "late.css".to_string()]);
}

#[test]
fn stylesheet_rel_ignores_case() {
    let dom = html::parse(r#"<link rel="StyleSheet" href="a.css"><link rel="stylesheets" href="b.css">"#);
    let mut hrefs = Vec::new();
    collect_stylesheet_hrefs(&dom, &mut hrefs);
    assert_eq!(hrefs, vec!["a.css".to_string()]);
}

#[test]
fn targets_are_told_apart() {
    assert!(is_http("http://a.com"));
    assert!(is_http("https://a.com"));
    assert!(!is_http("file:///tmp/x.html"));
    assert!(!is_http("page.html"));
    assert_eq!(local_path("file:///tmp/x.html"), "/tmp/x.html");
    assert_eq!(local_path("page.html"), "page.html");
}

#[test]
fn linked_css_skips_failed_fetches() {
    let dom = html::parse(
        r#"<link rel=stylesheet href="a.css"><link rel=stylesheet href="/b.css"><link rel=stylesheet href="c.css">"#,
    );
    let mut linked = LinkedCss::new(&dom, "https://site.org/dir/page.html");
    assert_eq!(linked.next_url(), Some("https://site.org/dir/a.css"));
    linked.receive(Some("a{}"));
    assert_eq!(linked.next_url(), Some("https://site.org/b.css"));
    linked.receive(None);
    assert_eq!(linked.next_url(), Some("https://site.org/dir/c.css"));
    linked.receive(Some("c{}"));
    assert_eq!(linked.next_url(), None);
    linked.receive(Some("ignored"));
    assert_eq!(linked.css(), "a{}\nc{}\n");
}

#[test]
fn loaded_pages_keep_their_url_as_base() {
    let web = resource_from("https://example.com/", "<p>hi</p>".to_string());
    assert_eq!(web.body, "<p>hi</p>");
    assert_eq!(web.base_url.as_deref(), Some("https://example.com/"));
    let local = resource_from("file:///tmp/page.html", "x".to_string());
    assert_eq!(local.body, "x");
    assert_eq!(local.base_url, None);
}

#[test]
fn linked_css_keeps_document_order() {
    let dom = html::parse(r#"<link rel="Alternate StyleSheet" href="b.css"><link rel=stylesheet href="a.css">"#);
    let mut linked = LinkedCss::new(&dom, "https://site.org/");
    assert_eq!(linked.next_url(), Some("https://site.org/b.css"));
    linked.receive(None);
    assert_eq!(linked.next_url(), Some("https://site.org/a.css"));
    linked.receive(Some("p{}"));
    assert_eq!(linked.next_url(), None);
    assert_eq!(linked.css(), "p{}\n");
}
