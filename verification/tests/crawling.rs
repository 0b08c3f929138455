use dump_it::crawl::{clean_link, extract_links, resolve_link, Crawler};
use dump_it::dom::Document;
use dump_it::web::{host, Address, Reply};

fn page(links: &[&str]) -> Option<Reply> {
    let mut body = String::from("<html><body>");
    for l in links {
        body.push_str(&format!("<a href=\"{}\">x</a>", l));
    }
    body.push_str("</body></html>");
    Some(Reply { status: 200, body })
}

fn crawl(seed: &str, max_depth: usize, max_pages: usize, web: &[(&str, Option<Reply>)]) -> (Vec<String>, Vec<String>) {
    let mut crawler = Crawler::new(seed, max_depth, max_pages);
    let mut fetched = Vec::new();
    while let Some(url) = crawler.next() {
        assert!(crawler.discovered().len() <= max_pages);
        let reply = web.iter().find(|(u, _)| *u == url).map(|(_, r)| r.clone()).unwrap_or(None);
        fetched.push(url);
        crawler.feed(&reply);
    }
    (crawler.into_discovered(), fetched)
}

#[test]
fn host_is_read_from_the_parsed_url() {
    assert_eq!(host("https://Sub.Example.com:8080/a?b#c"), Some("sub.example.com".to_string()));
    assert_eq!(host("mailto:someone@example.com"), None);
    assert_eq!(host("not a url"), None);
}

#[test]
fn address_gives_text_scheme_host_and_root_sitemap() {
    let a = Address::parse("HTTPS://example.com").unwrap();
    assert_eq!(a.text, "https://example.com/");
    assert_eq!(a.scheme, "https");
    assert_eq!(a.host, Some("example.com".to_string()));
    assert_eq!(a.root_sitemap(), Some("https://example.com/sitemap.xml".to_string()));
    assert_eq!(Address::parse("data:text/plain,x").unwrap().root_sitemap(), None);
    assert_eq!(Address::parse("/relative"), None);
}

#[test]
fn links_resolve_against_the_page_and_lose_their_fragment() {
    assert_eq!(
        resolve_link("https://example.com/a/b", "../c?d=1#top"),
        Some("https://example.com/c?d=1".to_string())
    );
    assert_eq!(
        resolve_link("https://example.com/a", "#top"),
        Some("https://example.com/a".to_string())
    );
    assert_eq!(resolve_link("https://example.com/a", "mailto:x@example.com"), None);
    assert_eq!(resolve_link("https://example.com/a", "javascript:void(0)"), None);
    assert_eq!(resolve_link("not a url", "/c"), None);
    assert_eq!(resolve_link("https://example.com/a/b", "c"), Some("https://example.com/a/c".to_string()));
}

#[test]
fn clean_link_keeps_web_urls_only() {
    assert_eq!(clean_link("http://x.example/#a"), Some("http://x.example/".to_string()));
    assert_eq!(clean_link("ftp://x.example/"), None);
    assert_eq!(clean_link("https://x.example/a#b#c"), Some("https://x.example/a".to_string()));
}

#[test]
fn page_links_come_in_document_order() {
    let doc = Document::parse(
        "<body><a href=\"/one\">1</a><a name=\"anchor\">no href</a><p><a href=\"two#x\">2</a></p>\
         <a href=\"https://other.example/\">3</a></body>",
    );
    assert_eq!(
        extract_links(&doc, "https://example.com/dir/page"),
        vec!["https://example.com/one", "https://example.com/dir/two", "https://other.example/"]
    );
}

#[test]
fn crawl_records_the_distance_of_each_page() {
    let mut crawler = Crawler::new("https://example.com/", 2, 10);
    assert_eq!(crawler.next(), Some("https://example.com/".to_string()));
    crawler.feed(&page(&["/a", "/b"]));
    assert_eq!(crawler.next(), Some("https://example.com/a".to_string()));
    crawler.feed(&page(&["/c"]));
    assert_eq!(crawler.next(), Some("https://example.com/b".to_string()));
    crawler.feed(&page(&["/d"]));
    assert_eq!(crawler.next(), None);
    assert_eq!(crawler.levels(), &vec![0, 1, 1, 2, 2]);
    assert_eq!(crawler.discovered().len(), 5);
}

#[test]
fn crawl_visits_breadth_first_and_each_url_once() {
    let web = [
        ("https://example.com/", page(&["/a", "/b", "/a", "/"])),
        ("https://example.com/a", page(&["/c", "/b"])),
        ("https://example.com/b", page(&["/d", "/a#frag"])),
        ("https://example.com/c", page(&[])),
        ("https://example.com/d", page(&[])),
    ];
    let (found, _) = crawl("https://example.com/", 3, 100, &web);
    assert_eq!(
        found,
        vec![
            "https://example.com/",
            "https://example.com/a",
            "https://example.com/b",
            "https://example.com/c",
            "https://example.com/d",
        ]
    );
}

#[test]
fn crawl_follows_links_to_the_seed_host_only() {
    let web = [(
        "https://example.com/",
        page(&["https://other.example/x", "https://www.example.com/y", "http://example.com/z", "/w"]),
    )];
    let (found, _) = crawl("https://example.com/", 1, 100, &web);
    assert_eq!(found, vec!["https://example.com/", "http://example.com/z", "https://example.com/w"]);
    for url in &found {
        assert_eq!(host(url), Some("example.com".to_string()));
    }
}

#[test]
fn crawl_stops_at_the_page_budget() {
    let web = [
        ("https://example.com/", page(&["/a", "/b", "/c", "/d"])),
        ("https://example.com/a", page(&["/e"])),
    ];
    let (found, fetched) = crawl("https://example.com/", 5, 3, &web);
    assert_eq!(found, vec!["https://example.com/", "https://example.com/a", "https://example.com/b"]);
    assert_eq!(fetched, vec!["https://example.com/", "https://example.com/a"]);
    let (found, fetched) = crawl("https://example.com/", 5, 1, &web);
    assert_eq!(found, vec!["https://example.com/"]);
    assert_eq!(fetched, Vec::<String>::new());
    let (found, _) = crawl("https://example.com/", 5, 0, &web);
    assert_eq!(found, Vec::<String>::new());
}

#[test]
fn crawl_does_not_expand_pages_at_the_depth_limit() {
    let web = [
        ("https://example.com/", page(&["/a"])),
        ("https://example.com/a", page(&["/b"])),
        ("https://example.com/b", page(&["/c"])),
    ];
    let (found, fetched) = crawl("https://example.com/", 0, 10, &web);
    assert_eq!(found, vec!["https://example.com/"]);
    assert_eq!(fetched, Vec::<String>::new());
    let (found, fetched) = crawl("https://example.com/", 2, 10, &web);
    assert_eq!(found, vec!["https://example.com/", "https://example.com/a", "https://example.com/b"]);
    assert_eq!(fetched, vec!["https://example.com/", "https://example.com/a"]);
}

#[test]
fn page_that_cannot_be_fetched_still_counts() {
    let web = [
        ("https://example.com/", page(&["/a", "/b"])),
        ("https://example.com/a", None),
        ("https://example.com/b", Some(Reply { status: 500, body: "<a href=\"/c\">c</a>".to_string() })),
    ];
    let (found, _) = crawl("https://example.com/", 3, 10, &web);
    assert_eq!(found, vec!["https://example.com/", "https://example.com/a", "https://example.com/b"]);
}

#[test]
fn seed_without_host_is_the_only_page() {
    let (found, fetched) = crawl("not a url", 3, 10, &[]);
    assert_eq!(found, vec!["not a url"]);
    assert_eq!(fetched, Vec::<String>::new());
}

#[test]
fn links_can_be_handed_in_directly() {
    let mut crawler = Crawler::new("https://example.com/", 2, 10);
    assert_eq!(crawler.next(), Some("https://example.com/".to_string()));
    crawler.feed_links(Some(vec![
        "https://example.com/x".to_string(),
        "https://example.com/x".to_string(),
        "https://elsewhere.example/".to_string(),
    ]));
    assert_eq!(crawler.next(), Some("https://example.com/x".to_string()));
    crawler.feed_links(None);
    assert_eq!(crawler.next(), None);
    assert_eq!(crawler.discovered(), &vec!["https://example.com/".to_string(), "https://example.com/x".to_string()]);
}

#[test]
fn crawl_records_as_many_reachable_pages_as_the_budget_allows() {
    let web = [
        ("https://example.com/", page(&["/a", "/b", "https://other.example/"])),
        ("https://example.com/a", page(&["/c", "/"])),
        ("https://example.com/b", None),
        ("https://example.com/c", page(&["/d"])),
        ("https://example.com/d", page(&["/e"])),
    ];
    for budget in 0..8 {
        let (found, _) = crawl("https://example.com/", 3, budget, &web);
        assert_eq!(found.len(), budget.min(5));
    }
    for budget in 0..8 {
        let (found, _) = crawl("https://example.com/", 1, budget, &web);
        assert_eq!(found.len(), budget.min(3));
    }
}
