use dump_it::content::{ContentBlock, FormField, ImageCandidate};
use dump_it::dom::Document;

fn blocks(html: &str) -> Vec<ContentBlock> {
    Document::parse(html).text_blocks()
}

fn paragraph(text: &str) -> ContentBlock {
    ContentBlock::Paragraph { text: text.to_string() }
}

#[test]
fn paragraph_of_nineteen_characters_is_dropped() {
    let text = "a".repeat(19);
    let html = format!("<html><body><p>{}</p></body></html>", text);
    assert_eq!(blocks(&html), vec![]);
}

#[test]
fn paragraph_of_twenty_characters_is_dropped() {
    let text = "a".repeat(20);
    let html = format!("<html><body><p>{}</p></body></html>", text);
    assert_eq!(blocks(&html), vec![]);
}

#[test]
fn paragraph_of_twenty_one_characters_is_kept() {
    let text = "a".repeat(21);
    let html = format!("<html><body><p>{}</p></body></html>", text);
    assert_eq!(blocks(&html), vec![paragraph(&text)]);
}

#[test]
fn paragraph_length_counts_characters_after_collapsing_white_space() {
    let html = "<body><p>  aaaaaaaaaa \n\n   bbbbbbbbb  </p></body>";
    assert_eq!(blocks(html), vec![]);
    let html = "<body><p>  aaaaaaaaaa \n\n   bbbbbbbbbb  </p></body>";
    assert_eq!(blocks(html), vec![paragraph("aaaaaaaaaa bbbbbbbbbb")]);
}

#[test]
fn heading_and_paragraph_come_in_document_order() {
    let html = "<h1>Hello</h1><p>This is a paragraph longer than twenty chars.</p><img src=\"/a.png\">";
    assert_eq!(
        blocks(html),
        vec![
            ContentBlock::Heading { level: 1, text: "Hello".to_string() },
            paragraph("This is a paragraph longer than twenty chars."),
        ]
    );
    assert_eq!(
        Document::parse(html).image_candidates(),
        vec![ImageCandidate {
            src: "/a.png".to_string(),
            data_src: None,
            srcset: None,
            alt: String::new(),
        }]
    );
}

#[test]
fn heading_levels_follow_the_tag() {
    let html = "<body><h2> Two </h2><h6>Six<b>th</b></h6><h3>  </h3></body>";
    assert_eq!(
        blocks(html),
        vec![
            ContentBlock::Heading { level: 2, text: "Two".to_string() },
            ContentBlock::Heading { level: 6, text: "Six th".to_string() },
        ]
    );
}

#[test]
fn main_is_preferred_to_article_and_body() {
    let html = "<body><h1>Outside</h1><article><h2>Article</h2></article><main><h3>Main</h3></main></body>";
    assert_eq!(blocks(html), vec![ContentBlock::Heading { level: 3, text: "Main".to_string() }]);
    let html = "<body><h1>Outside</h1><article><h2>Article</h2></article></body>";
    assert_eq!(blocks(html), vec![ContentBlock::Heading { level: 2, text: "Article".to_string() }]);
    let html = "<body><h1>Outside</h1><div role=\"main\"><h2>Landmark</h2></div></body>";
    assert_eq!(blocks(html), vec![ContentBlock::Heading { level: 2, text: "Landmark".to_string() }]);
}

#[test]
fn content_inside_boilerplate_is_skipped() {
    let html = "<body><nav><h1>Menu</h1></nav><header><div><h2>Logo</h2></div></header>\
                <h3>Kept</h3><footer><ul><li>Imprint</li></ul></footer><h4>After</h4></body>";
    assert_eq!(
        blocks(html),
        vec![
            ContentBlock::Heading { level: 3, text: "Kept".to_string() },
            ContentBlock::Heading { level: 4, text: "After".to_string() },
        ]
    );
}

#[test]
fn boilerplate_outside_the_root_still_hides_it() {
    let html = "<body><header><main><h1>Hidden</h1></main></header></body>";
    assert_eq!(blocks(html), vec![]);
}

#[test]
fn list_keeps_its_non_empty_items() {
    let html = "<body><ul><li> one\n two </li><li>   </li><li>three</li></ul><ol></ol></body>";
    assert_eq!(
        blocks(html),
        vec![ContentBlock::List { items: vec!["one two".to_string(), "three".to_string()] }]
    );
}

#[test]
fn form_field_takes_the_label_that_names_it() {
    let html = "<body><label for=\"e\">Email</label><form><input id=\"e\" required></form></body>";
    assert_eq!(
        blocks(html),
        vec![ContentBlock::Form {
            action: String::new(),
            method: "GET".to_string(),
            fields: vec![FormField {
                field_type: "input".to_string(),
                name: String::new(),
                label: "Email".to_string(),
                placeholder: String::new(),
                required: true,
                options: vec![],
            }],
            submit_text: "Submit".to_string(),
        }]
    );
}

#[test]
fn form_reads_fields_options_and_submit_button() {
    let html = "<body><form action=\"/go\" method=\"post\">\
        <input type=\"hidden\" name=\"token\">\
        <label>Name <input type=\"text\" name=\"n\" placeholder=\"Your name\"></label>\
        <select name=\"c\"><option>Red</option><option> </option><option>Blue</option></select>\
        <textarea name=\"t\"></textarea>\
        <button type=\"SUBMIT\"> Send it </button>\
        </form></body>";
    assert_eq!(
        blocks(html),
        vec![ContentBlock::Form {
            action: "/go".to_string(),
            method: "POST".to_string(),
            fields: vec![
                FormField {
                    field_type: "text".to_string(),
                    name: "n".to_string(),
                    label: "Name".to_string(),
                    placeholder: "Your name".to_string(),
                    required: false,
                    options: vec![],
                },
                FormField {
                    field_type: "select".to_string(),
                    name: "c".to_string(),
                    label: String::new(),
                    placeholder: String::new(),
                    required: false,
                    options: vec!["Red".to_string(), "Blue".to_string()],
                },
                FormField {
                    field_type: "textarea".to_string(),
                    name: "t".to_string(),
                    label: String::new(),
                    placeholder: String::new(),
                    required: false,
                    options: vec![],
                },
            ],
            submit_text: "Send it".to_string(),
        }]
    );
}

#[test]
fn submit_input_gives_its_value_and_is_no_field() {
    let html = "<body><form><input type=\"submit\" value=\" Go \"></form></body>";
    assert_eq!(
        blocks(html),
        vec![ContentBlock::Form {
            action: String::new(),
            method: "GET".to_string(),
            fields: vec![],
            submit_text: "Go".to_string(),
        }]
    );
}

#[test]
fn images_without_src_or_inside_boilerplate_are_no_candidates() {
    let html = "<body><img alt=\"none\"><nav><img src=\"/menu.png\"></nav>\
                <img src=\"/b.jpg\" data-src=\"/lazy.jpg\" srcset=\"/s1.jpg 1x, /s2.jpg 2x\" alt=\"B\"></body>";
    assert_eq!(
        Document::parse(html).image_candidates(),
        vec![ImageCandidate {
            src: "/b.jpg".to_string(),
            data_src: Some("/lazy.jpg".to_string()),
            srcset: Some("/s1.jpg 1x, /s2.jpg 2x".to_string()),
            alt: "B".to_string(),
        }]
    );
}

fn element(name: &str, depth: usize) -> dump_it::dom::Node {
    dump_it::dom::Node {
        content: dump_it::dom::Content::Element {
            namespace: "http://www.w3.org/1999/xhtml".to_string(),
            name: name.to_string(),
            attrs: vec![],
        },
        depth,
    }
}

fn text(content: &str, depth: usize) -> dump_it::dom::Node {
    dump_it::dom::Node { content: dump_it::dom::Content::Text(content.to_string()), depth }
}

#[test]
fn blocks_are_read_from_a_document_written_by_hand() {
    let doc = Document {
        nodes: vec![
            element("body", 0),
            element("h1", 1),
            text(" A ", 2),
            element("b", 2),
            text("B", 3),
            element("nav", 1),
            element("h2", 2),
            text("Menu", 3),
            element("h3", 1),
            text("C", 2),
        ],
    };
    assert_eq!(doc.content_root(), Some(0));
    assert_eq!(doc.subtree_end(1), 5);
    assert_eq!(doc.subtree_end(5), 8);
    assert_eq!(doc.nearest_tag(7, "nav"), Some(5));
    assert_eq!(doc.nearest_tag(9, "nav"), None);
    assert_eq!(dump_it::content::shadow_flags(&doc), vec![false, false, false, false, false, false, true, true, false, false]);
    assert_eq!(
        doc.text_blocks(),
        vec![
            ContentBlock::Heading { level: 1, text: "A  B".to_string() },
            ContentBlock::Heading { level: 3, text: "C".to_string() },
        ]
    );
}

#[test]
fn parsed_nodes_carry_their_depth() {
    let doc = Document::parse("<html><head></head><body><p>Hi</p></body></html>");
    let shape: Vec<(String, usize)> = doc.nodes.iter().map(|n| (n.tag(), n.depth)).collect();
    assert_eq!(
        shape,
        vec![
            (String::new(), 0),
            ("html".to_string(), 1),
            ("head".to_string(), 2),
            ("body".to_string(), 2),
            ("p".to_string(), 3),
            (String::new(), 4),
        ]
    );
}
