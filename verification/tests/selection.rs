use dump_it::content::ContentBlock;
use dump_it::dom::Document;
use scraper::{Html, Selector};

const PAGES: [&str; 6] = [
    "<body><div role=\"main\"><h1>Landmark</h1></div><article><h2>Article</h2></article></body>",
    "<body><div role=\"MAIN\"><h1>Upper</h1></div><section role=\"main\"><h2>Lower</h2></section></body>",
    "<body><form><button type=\"SUBMIT\">Upper</button><button>Plain</button></form></body>",
    "<body><form><button type=\"reset\">Reset</button><input type=\"Submit\" value=\"Go\"><button>Plain</button></form></body>",
    "<body><form><button type=\"button\">No</button><div><button> Inner </button></div></form></body>",
    "<body><form><input type=\"text\"><button type=\"submit\"><b>Bold</b> text</button></form></body>",
];

fn first_name(html: &Html, selector: &str) -> Option<String> {
    let selector = Selector::parse(selector).unwrap();
    html.select(&selector).next().map(|e| e.value().name().to_string())
}

#[test]
fn content_root_is_the_element_that_the_selectors_pick() {
    for page in PAGES {
        let html = Html::parse_document(page);
        let expected = ["main", "article", "[role='main']", "body"]
            .iter()
            .find_map(|s| first_name(&html, s));
        let doc = Document::parse(page);
        let found = doc.content_root().map(|i| doc.nodes[i].tag());
        assert_eq!(found, expected);
    }
}

#[test]
fn submit_text_is_that_of_the_control_that_the_selector_picks() {
    let selector =
        Selector::parse("button[type='submit'], input[type='submit'], button:not([type])").unwrap();
    let form_selector = Selector::parse("form").unwrap();
    for page in PAGES {
        let html = Html::parse_document(page);
        let expected: Vec<String> = html
            .select(&form_selector)
            .map(|form| match form.select(&selector).next() {
                Some(control) => {
                    let text = if control.value().name() == "input" {
                        control.value().attr("value").unwrap_or("").trim().to_string()
                    } else {
                        control.text().collect::<Vec<_>>().join(" ").trim().to_string()
                    };
                    if text.is_empty() {
                        "Submit".to_string()
                    } else {
                        text
                    }
                }
                None => "Submit".to_string(),
            })
            .collect();
        let found: Vec<String> = Document::parse(page)
            .text_blocks()
            .into_iter()
            .filter_map(|b| match b {
                ContentBlock::Form { submit_text, .. } => Some(submit_text),
                _ => None,
            })
            .collect();
        assert_eq!(found, expected);
    }
}

#[test]
fn label_is_the_one_that_the_selector_picks() {
    let page = "<body><label for=\"a b\">Spaced</label><label for=\"x\">First</label>\
                <label for=\"x\">Second</label><label for=\"X\">Upper</label>\
                <form><input id=\"x\"><input id=\"X\"><input id=\"a b\"><input id=\"none\"></form></body>";
    let html = Html::parse_document(page);
    let expected: Vec<String> = ["x", "X", "a b", "none"]
        .iter()
        .map(|id| {
            let selector = Selector::parse(&format!("label[for='{}']", id)).unwrap();
            html.select(&selector)
                .next()
                .map(|l| l.text().collect::<Vec<_>>().join(" ").trim().to_string())
                .unwrap_or_default()
        })
        .collect();
    let found: Vec<String> = Document::parse(page)
        .text_blocks()
        .into_iter()
        .flat_map(|b| match b {
            ContentBlock::Form { fields, .. } => fields.into_iter().map(|f| f.label).collect(),
            _ => Vec::new(),
        })
        .collect();
    assert_eq!(found, expected);
    assert_eq!(found, vec!["First", "Upper", "Spaced", ""]);
}

#[test]
fn attribute_in_a_namespace_is_no_plain_attribute() {
    let page = "<body><svg><a xlink:href=\"/in-svg\">x</a></svg><a href=\"/plain\">y</a></body>";
    let html = Html::parse_document(page);
    let selector = Selector::parse("a[href]").unwrap();
    let expected: Vec<String> =
        html.select(&selector).filter_map(|a| a.value().attr("href")).map(String::from).collect();
    assert_eq!(expected, vec!["/plain"]);
    let doc = Document::parse(page);
    assert_eq!(dump_it::crawl::extract_links(&doc, "https://example.com/"), vec!["https://example.com/plain"]);
}
