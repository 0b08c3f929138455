use dump_it::content::ContentBlock;
use dump_it::discovery::{accept, plan, Plan};
use dump_it::dom::Document;
use dump_it::images::{ImageAction, ImageEvent, ImagePipeline};
use dump_it::driver::Driver;
use dump_it::page::{count_words, draft_from, draft_page, finish_page, PageMeta, PageRecord};
use dump_it::web::{body_of, Reply};

fn ok(body: &str) -> Option<Reply> {
    Some(Reply { status: 200, body: body.to_string() })
}

#[test]
fn end_to_end_page_gives_heading_paragraph_and_image() {
    let html = "<h1>Hello</h1><p>This is a paragraph longer than twenty chars.</p><img src=\"/a.png\">";
    let draft = draft_page("https://example.com/page", &ok(html)).unwrap();
    let mut pipeline = ImagePipeline::new(&draft.url, "out/images", draft.images.clone());
    let mut fetched = 0;
    loop {
        let event = match pipeline.action() {
            ImageAction::Finished => break,
            ImageAction::Probe { .. } => ImageEvent::Probed { exists: false },
            ImageAction::Fetch { url } => {
                assert_eq!(url, "https://example.com/a.png");
                fetched += 1;
                ImageEvent::Fetched { status: 200, len: 2000 }
            }
            ImageAction::Store { .. } => ImageEvent::Stored { ok: true },
        };
        pipeline.step(event);
    }
    let record = finish_page(draft, pipeline.into_blocks());
    assert_eq!(fetched, 1);
    assert_eq!(
        record.content_blocks,
        vec![
            ContentBlock::Heading { level: 1, text: "Hello".to_string() },
            ContentBlock::Paragraph { text: "This is a paragraph longer than twenty chars.".to_string() },
            ContentBlock::Image {
                original_url: "https://example.com/a.png".to_string(),
                local_path: "out/images/494a30704d4f32ac.png".to_string(),
                alt_text: String::new(),
            },
        ]
    );
    assert_eq!(record.total_words, 9);
    assert_eq!(record.url, "https://example.com/page");
    assert_eq!(record.title, "No title");
    assert_eq!(record.meta_title, "No title");
    assert_eq!(record.meta_description, "");
}

#[test]
fn title_and_meta_tags_are_read() {
    let doc = Document::parse(
        "<html><head><title> My page </title>\
         <meta name=\"description\" content=\"Plain\">\
         <meta property=\"og:title\" content=\"\">\
         <meta property=\"og:title\" content=\"Graph title\">\
         <meta property=\"og:title\" content=\"Later\">\
         <meta property=\"og:description\" content=\"Graph description\">\
         <meta name=\"title\" content=\"Plain title\">\
         </head><body></body></html>",
    );
    assert_eq!(doc.title(), "My page");
    assert_eq!(
        doc.meta(),
        PageMeta { title: "Graph title".to_string(), description: "Plain".to_string() }
    );
}

#[test]
fn meta_title_falls_back_to_the_title() {
    let doc = Document::parse("<html><head><title>Only</title></head><body></body></html>");
    let draft = draft_from("https://example.com/", &doc);
    assert_eq!(draft.title, "Only");
    assert_eq!(draft.meta_title, "Only");
    let doc = Document::parse(
        "<html><head><title>Only</title><meta name=\"title\" content=\"Meta\"></head></html>",
    );
    assert_eq!(draft_from("https://example.com/", &doc).meta_title, "Meta");
}

#[test]
fn page_is_dropped_on_failure_bad_status_or_bad_url() {
    assert_eq!(draft_page("https://example.com/", &None), None);
    assert_eq!(
        draft_page("https://example.com/", &Some(Reply { status: 503, body: "<h1>x</h1>".to_string() })),
        None
    );
    assert_eq!(draft_page("no url", &ok("<h1>x</h1>")), None);
    assert!(draft_page("https://example.com/", &Some(Reply { status: 299, body: String::new() })).is_some());
    assert_eq!(body_of(&Some(Reply { status: 199, body: "x".to_string() })), None);
    assert_eq!(body_of(&Some(Reply { status: 300, body: "x".to_string() })), None);
    assert_eq!(body_of(&ok("x")), Some(&"x".to_string()));
}

#[test]
fn words_are_counted_in_headings_paragraphs_and_list_items() {
    let blocks = vec![
        ContentBlock::Heading { level: 2, text: "Two words".to_string() },
        ContentBlock::Paragraph { text: "one two three".to_string() },
        ContentBlock::List { items: vec!["a b".to_string(), "c".to_string()] },
        ContentBlock::Image {
            original_url: "many words in here".to_string(),
            local_path: "x y".to_string(),
            alt_text: "alt text".to_string(),
        },
        ContentBlock::Form {
            action: "a b".to_string(),
            method: "GET".to_string(),
            fields: vec![],
            submit_text: "Send it".to_string(),
        },
    ];
    assert_eq!(count_words(&blocks), 8);
    assert_eq!(count_words(&vec![]), 0);
}

fn record(url: &str) -> PageRecord {
    PageRecord {
        url: url.to_string(),
        title: String::new(),
        meta_title: String::new(),
        meta_description: String::new(),
        content_blocks: vec![],
        total_words: 0,
    }
}

#[test]
fn failed_pages_leave_no_trace_in_the_result() {
    let urls = vec!["a".to_string(), "x".to_string(), "b".to_string(), "y".to_string()];
    let mut driver = Driver::new(urls, 4);
    while let Some(_) = driver.launch() {}
    driver.land(Some(record("a")));
    driver.land(None);
    driver.land(Some(record("b")));
    driver.land(None);
    assert!(driver.is_finished());
    let data = driver.into_data();
    assert_eq!(data.total_pages, 2);
    assert_eq!(data.pages, vec![record("a"), record("b")]);
}

#[test]
fn no_more_pages_are_in_flight_than_the_capacity() {
    let urls: Vec<String> = ["a", "b", "c", "d", "e"].iter().map(|u| u.to_string()).collect();
    let mut driver = Driver::new(urls, 2);
    assert_eq!(driver.launch(), Some("a".to_string()));
    assert_eq!(driver.launch(), Some("b".to_string()));
    assert_eq!(driver.launch(), None);
    assert_eq!(driver.in_flight(), 2);
    driver.land(Some(record("b")));
    assert_eq!(driver.launch(), Some("c".to_string()));
    assert_eq!(driver.launch(), None);
    driver.land(None);
    driver.land(Some(record("a")));
    assert!(!driver.is_finished());
    assert_eq!(driver.launch(), Some("d".to_string()));
    assert_eq!(driver.launch(), Some("e".to_string()));
    assert_eq!(driver.launch(), None);
    driver.land(Some(record("e")));
    driver.land(Some(record("d")));
    assert!(driver.is_finished());
    let data = driver.into_data();
    assert_eq!(data.total_pages, 4);
    assert_eq!(data.pages, vec![record("b"), record("a"), record("e"), record("d")]);
}

#[test]
fn run_without_pages_or_without_capacity_gives_an_empty_result() {
    let mut driver = Driver::new(vec![], 3);
    assert_eq!(driver.launch(), None);
    assert!(driver.is_finished());
    assert_eq!(driver.into_data().total_pages, 0);
    let mut driver = Driver::new(vec!["a".to_string()], 0);
    assert_eq!(driver.launch(), None);
    assert!(!driver.is_finished());
    assert_eq!(driver.into_data().pages, vec![]);
}

#[test]
fn plan_resolves_sitemaps_and_probes_other_sites() {
    assert_eq!(
        plan("https://example.com/sitemap_index"),
        Plan::Resolve("https://example.com/sitemap_index".to_string())
    );
    assert_eq!(plan("https://example.com/feed.xml"), Plan::Resolve("https://example.com/feed.xml".to_string()));
    assert_eq!(
        plan("http://example.com:8080/some/page?x=1"),
        Plan::Probe("http://example.com/sitemap.xml".to_string())
    );
    assert_eq!(plan("no url"), Plan::Invalid);
    assert_eq!(plan("mailto:a@example.com"), Plan::Invalid);
}

#[test]
fn target_that_is_no_url_is_invalid_whatever_it_is_called() {
    assert_eq!(plan("sitemap.xml"), Plan::Invalid);
    assert_eq!(plan("my sitemap"), Plan::Invalid);
    assert_eq!(plan("/feeds/index.xml"), Plan::Invalid);
    assert_eq!(plan("example.com/sitemap"), Plan::Invalid);
    assert_eq!(plan("file:///tmp/sitemap.xml"), Plan::Resolve("file:///tmp/sitemap.xml".to_string()));
}

#[test]
fn body_too_long_to_parse_counts_as_no_page() {
    let long = Some(Reply { status: 200, body: "a".repeat(dump_it::dom::MAX_MARKUP_CHARS + 1) });
    assert_eq!(body_of(&long), None);
    assert_eq!(draft_page("https://example.com/", &long), None);
    assert_eq!(dump_it::sitemap::read_listing(&long), dump_it::sitemap::Listing::Unavailable);
    assert!(Document::try_parse(&long.as_ref().unwrap().body).is_none());
    let mut crawler = dump_it::crawl::Crawler::new("https://example.com/", 2, 10);
    assert_eq!(crawler.next(), Some("https://example.com/".to_string()));
    crawler.feed(&long);
    assert_eq!(crawler.next(), None);
    assert_eq!(crawler.discovered().len(), 1);
}

#[test]
fn try_parse_parses_a_page_of_ordinary_length() {
    let doc = Document::try_parse("<title>T</title>").unwrap();
    assert_eq!(doc, Document::parse("<title>T</title>"));
    assert_eq!(doc.title(), "T");
}

#[test]
fn probed_sitemap_needs_more_than_one_url() {
    let probe = Plan::Probe("https://example.com/sitemap.xml".to_string());
    let direct = Plan::Resolve("https://example.com/sitemap.xml".to_string());
    let one = vec!["https://example.com/".to_string()];
    let two = vec!["https://example.com/".to_string(), "https://example.com/a".to_string()];
    assert_eq!(accept(&probe, Some(one.clone())), None);
    assert_eq!(accept(&probe, Some(two.clone())), Some(two.clone()));
    assert_eq!(accept(&probe, None), None);
    assert_eq!(accept(&direct, Some(one.clone())), Some(one));
    assert_eq!(accept(&direct, Some(vec![])), Some(vec![]));
    assert_eq!(accept(&direct, None), None);
}
