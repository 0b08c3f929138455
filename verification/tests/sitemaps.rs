use dump_it::dom::Document;
use dump_it::sitemap::{looks_like_sitemap, read_listing, sitemap_locations, Listing, SitemapWalk};
use dump_it::web::Reply;

fn ok(body: &str) -> Option<Reply> {
    Some(Reply { status: 200, body: body.to_string() })
}

fn urlset(locs: &[&str]) -> String {
    let mut s = String::from("<?xml version=\"1.0\"?><urlset>");
    for l in locs {
        s.push_str(&format!("<url><loc> {} </loc></url>", l));
    }
    s.push_str("</urlset>");
    s
}

fn index(locs: &[&str]) -> String {
    let mut s = String::from("<sitemapindex>");
    for l in locs {
        s.push_str(&format!("<sitemap><loc>{}</loc></sitemap>", l));
    }
    s.push_str("</sitemapindex>");
    s
}

fn resolve(start: &str, web: &[(&str, Option<Reply>)]) -> (Option<Vec<String>>, Vec<String>) {
    let mut walk = SitemapWalk::new(start);
    let mut fetched = Vec::new();
    while let Some(url) = walk.next() {
        let reply = web.iter().find(|(u, _)| *u == url).map(|(_, r)| r.clone()).unwrap_or(None);
        fetched.push(url);
        walk.feed(&reply);
    }
    assert!(walk.is_finished());
    (walk.into_outcome(), fetched)
}

#[test]
fn sitemap_shape_is_a_substring_test() {
    assert!(looks_like_sitemap("<urlset xmlns=\"x\">"));
    assert!(looks_like_sitemap("text <sitemapindex>"));
    assert!(!looks_like_sitemap("<html><body>urlset</body></html>"));
}

#[test]
fn locations_are_the_trimmed_texts_of_loc_elements() {
    let doc = Document::parse(&urlset(&["https://a.example/1", "https://a.example/2"]));
    assert_eq!(sitemap_locations(&doc), vec!["https://a.example/1", "https://a.example/2"]);
}

#[test]
fn listing_tells_sitemap_page_and_failure_apart() {
    assert_eq!(
        read_listing(&ok(&urlset(&["https://a.example/1"]))),
        Listing::Sitemap(vec!["https://a.example/1".to_string()])
    );
    assert_eq!(read_listing(&ok("<html><body>Hello</body></html>")), Listing::Page);
    assert_eq!(read_listing(&None), Listing::Unavailable);
    assert_eq!(
        read_listing(&Some(Reply { status: 404, body: urlset(&["https://a.example/1"]) })),
        Listing::Unavailable
    );
}

#[test]
fn index_of_two_sitemaps_of_three_pages_gives_six_urls() {
    let web = [
        ("https://a.example/sitemap.xml", ok(&index(&["https://a.example/s1.xml", "https://a.example/s2.xml"]))),
        ("https://a.example/s1.xml", ok(&urlset(&["https://a.example/1", "https://a.example/2", "https://a.example/3"]))),
        ("https://a.example/s2.xml", ok(&urlset(&["https://a.example/4", "https://a.example/2", "https://a.example/6"]))),
    ];
    let (found, fetched) = resolve("https://a.example/sitemap.xml", &web);
    assert_eq!(
        found,
        Some(vec![
            "https://a.example/1".to_string(),
            "https://a.example/2".to_string(),
            "https://a.example/3".to_string(),
            "https://a.example/4".to_string(),
            "https://a.example/2".to_string(),
            "https://a.example/6".to_string(),
        ])
    );
    assert_eq!(
        fetched,
        vec!["https://a.example/sitemap.xml", "https://a.example/s1.xml", "https://a.example/s2.xml"]
    );
}

#[test]
fn body_that_is_no_sitemap_gives_the_input_url_alone() {
    let web = [("https://a.example/page", ok("<html><body><p>Hello</p></body></html>"))];
    let (found, _) = resolve("https://a.example/page", &web);
    assert_eq!(found, Some(vec!["https://a.example/page".to_string()]));
}

#[test]
fn sub_sitemaps_are_spliced_in_where_they_are_listed() {
    let web = [
        ("https://a.example/sitemap.xml", ok(&urlset(&["https://a.example/first", "https://a.example/sub.xml", "https://a.example/last"]))),
        ("https://a.example/sub.xml", ok(&urlset(&["https://a.example/middle"]))),
    ];
    let (found, _) = resolve("https://a.example/sitemap.xml", &web);
    assert_eq!(
        found,
        Some(vec![
            "https://a.example/first".to_string(),
            "https://a.example/middle".to_string(),
            "https://a.example/last".to_string(),
        ])
    );
}

#[test]
fn failed_sub_sitemap_is_left_out_and_plain_one_counts_as_page() {
    let web = [
        ("https://a.example/sitemap.xml", ok(&index(&["https://a.example/gone.xml", "https://a.example/feed.xml"]))),
        ("https://a.example/gone.xml", None),
        ("https://a.example/feed.xml", ok("<rss></rss>")),
    ];
    let (found, _) = resolve("https://a.example/sitemap.xml", &web);
    assert_eq!(found, Some(vec!["https://a.example/feed.xml".to_string()]));
}

#[test]
fn failed_first_fetch_fails_the_resolution() {
    let (found, fetched) = resolve("https://a.example/sitemap.xml", &[]);
    assert_eq!(found, None);
    assert_eq!(fetched, vec!["https://a.example/sitemap.xml"]);
}

#[test]
fn sitemap_that_lists_itself_is_not_resolved_again() {
    let web = [(
        "https://a.example/sitemap.xml",
        ok(&index(&["https://a.example/sitemap.xml", "https://a.example/page"])),
    )];
    let (found, fetched) = resolve("https://a.example/sitemap.xml", &web);
    assert_eq!(found, Some(vec!["https://a.example/page".to_string()]));
    assert_eq!(fetched, vec!["https://a.example/sitemap.xml"]);
}

#[test]
fn sitemaps_that_list_each_other_end() {
    let web = [
        ("https://a.example/a.xml", ok(&index(&["https://a.example/b.xml", "https://a.example/1"]))),
        ("https://a.example/b.xml", ok(&index(&["https://a.example/a.xml", "https://a.example/2"]))),
    ];
    let (found, fetched) = resolve("https://a.example/a.xml", &web);
    assert_eq!(found, Some(vec!["https://a.example/2".to_string(), "https://a.example/1".to_string()]));
    assert_eq!(fetched, vec!["https://a.example/a.xml", "https://a.example/b.xml"]);
}

#[test]
fn sitemap_listed_twice_is_resolved_twice() {
    let web = [
        ("https://a.example/sitemap.xml", ok(&index(&["https://a.example/s.xml", "https://a.example/s.xml"]))),
        ("https://a.example/s.xml", ok(&urlset(&["https://a.example/1", "https://a.example/2"]))),
    ];
    let (found, fetched) = resolve("https://a.example/sitemap.xml", &web);
    assert_eq!(
        found,
        Some(vec![
            "https://a.example/1".to_string(),
            "https://a.example/2".to_string(),
            "https://a.example/1".to_string(),
            "https://a.example/2".to_string(),
        ])
    );
    assert_eq!(fetched.len(), 3);
}
