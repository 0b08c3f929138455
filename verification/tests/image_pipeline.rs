use dump_it::content::{ContentBlock, ImageCandidate};
use dump_it::images::{
    candidate_sources, extension, file_name, file_path, looks_like_placeholder,
    looks_like_tracker, lower_names_tracker, name_with_digest, srcset_head, url_path,
    ImageAction, ImageEvent, ImagePipeline,
};

fn image(src: &str) -> ImageCandidate {
    ImageCandidate { src: src.to_string(), data_src: None, srcset: None, alt: String::new() }
}

struct World {
    files: Vec<String>,
    web: Vec<(String, u16, usize)>,
    fetches: Vec<String>,
    writes: Vec<String>,
}

fn run(page: &str, dir: &str, images: Vec<ImageCandidate>, world: &mut World) -> Vec<ContentBlock> {
    let mut pipeline = ImagePipeline::new(page, dir, images);
    loop {
        let event = match pipeline.action() {
            ImageAction::Finished => break,
            ImageAction::Probe { path } => ImageEvent::Probed { exists: world.files.contains(&path) },
            ImageAction::Fetch { url } => {
                world.fetches.push(url.clone());
                match world.web.iter().find(|(u, _, _)| *u == url) {
                    Some((_, status, len)) => ImageEvent::Fetched { status: *status, len: *len },
                    None => ImageEvent::FetchFailed,
                }
            }
            ImageAction::Store { path } => {
                world.writes.push(path.clone());
                world.files.push(path);
                ImageEvent::Stored { ok: true }
            }
        };
        pipeline.step(event);
    }
    pipeline.into_blocks()
}

fn world(web: &[(&str, u16, usize)]) -> World {
    World {
        files: vec![],
        web: web.iter().map(|(u, s, l)| (u.to_string(), *s, *l)).collect(),
        fetches: vec![],
        writes: vec![],
    }
}

#[test]
fn file_name_is_the_start_of_the_digest_and_the_extension() {
    assert_eq!(file_name("https://example.com/a.png"), "494a30704d4f32ac.png");
    assert_eq!(file_name("https://example.com/img/photo.jpeg?size=large"), "f70c52b60e4b8d38.jpeg");
    assert_eq!(file_name("https://example.com/a.png"), file_name("https://example.com/a.png"));
    assert_eq!(name_with_digest("0123456789abcdefXYZ", "x/y.gif"), "0123456789abcdef.gif");
    assert_eq!(name_with_digest("0123", "x/y.gif"), "0123.gif");
    assert_eq!(file_path("out/images", "a.png"), "out/images/a.png");
}

#[test]
fn extension_is_that_of_the_last_segment_of_the_path() {
    assert_eq!(extension("https://example.com/a.b.webp?v=1.2"), "webp");
    assert_eq!(extension("https://example.com/archive.tar.gz"), "gz");
    assert_eq!(extension("https://example.com/a.png#top.part"), "png");
    assert_eq!(extension("https://example.com/a.png?x=1#frag"), "png");
    assert_eq!(extension("img/a.png"), "png");
    assert_eq!(extension("https://example.com/trailing."), "");
}

#[test]
fn extension_defaults_to_jpg_where_the_path_has_no_dot() {
    assert_eq!(extension("https://example.com/image"), "jpg");
    assert_eq!(extension("https://example.com/picture"), "jpg");
    assert_eq!(extension("http://localhost/picture"), "jpg");
    assert_eq!(extension("https://example.com/"), "jpg");
    assert_eq!(extension("https://example.com"), "jpg");
    assert_eq!(extension("https://cdn.example.com/v1.2/photo"), "jpg");
    assert_eq!(extension("https://example.com/photo?file=a.png"), "jpg");
    assert_eq!(extension("https://user:pw@example.com:8080/photo"), "jpg");
    assert_eq!(file_name("https://example.com/image"), "d19bd9462781da5d.jpg");
    assert_eq!(file_name("https://example.com/picture"), "0af7de4a68566bd2.jpg");
}

#[test]
fn path_is_what_follows_the_authority() {
    assert_eq!(url_path("https://example.com/a/b.png?x=/y.gif#z"), "/a/b.png");
    assert_eq!(url_path("https://example.com"), "");
    assert_eq!(url_path("https://example.com?q=1"), "");
    assert_eq!(url_path("http://a.example/x#http://b.example/y.png"), "/x");
    assert_eq!(url_path("/relative/path.svg"), "/relative/path.svg");
}

#[test]
fn image_without_extension_is_kept_as_jpg() {
    let mut w = world(&[("https://example.com/image", 200, 2000)]);
    let blocks = run("https://example.com/", "out", vec![image("/image")], &mut w);
    assert_eq!(
        blocks,
        vec![ContentBlock::Image {
            original_url: "https://example.com/image".to_string(),
            local_path: "out/d19bd9462781da5d.jpg".to_string(),
            alt_text: String::new(),
        }]
    );
    assert_eq!(w.writes, vec!["out/d19bd9462781da5d.jpg"]);
}

#[test]
fn sources_are_src_then_data_src_then_first_of_srcset() {
    let c = ImageCandidate {
        src: "a.png".to_string(),
        data_src: Some("b.png".to_string()),
        srcset: Some("  c.png 1x, d.png 2x".to_string()),
        alt: String::new(),
    };
    assert_eq!(candidate_sources(&c), vec!["a.png", "b.png", "c.png"]);
    let c = ImageCandidate { srcset: Some(" , d.png 2x".to_string()), data_src: None, ..c };
    assert_eq!(candidate_sources(&c), vec!["a.png"]);
    assert_eq!(srcset_head("x.png"), "x.png");
    assert_eq!(srcset_head(""), "");
}

#[test]
fn placeholders_and_trackers_are_recognised() {
    assert!(looks_like_placeholder("data:image/png;base64,AAAA"));
    assert!(looks_like_placeholder("https://example.com/1x1.gif"));
    assert!(looks_like_placeholder("https://example.com/placeholder.png"));
    assert!(!looks_like_placeholder("https://example.com/photo.png"));
    assert!(looks_like_tracker("https://www.GoogleTagManager.com/a.png"));
    assert!(looks_like_tracker("https://www.facebook.com/tr?id=1"));
    assert!(looks_like_tracker("https://example.com/Beacon.gif"));
    assert!(!looks_like_tracker("https://example.com/photo.png"));
    assert!(!lower_names_tracker("https://www.GoogleTagManager.com/a.png"));
    for word in ["googletagmanager", "google-analytics", "facebook.com/tr", "doubleclick",
        "analytics", "tracking", "pixel", "beacon"] {
        assert!(lower_names_tracker(&format!("https://x.example/{}/i.png", word)));
    }
}

#[test]
fn image_of_two_thousand_bytes_is_fetched_stored_and_listed() {
    let mut w = world(&[("https://example.com/a.png", 200, 2000)]);
    let blocks = run("https://example.com/page", "out/images", vec![image("/a.png")], &mut w);
    assert_eq!(
        blocks,
        vec![ContentBlock::Image {
            original_url: "https://example.com/a.png".to_string(),
            local_path: "out/images/494a30704d4f32ac.png".to_string(),
            alt_text: String::new(),
        }]
    );
    assert_eq!(w.fetches, vec!["https://example.com/a.png"]);
    assert_eq!(w.writes, vec!["out/images/494a30704d4f32ac.png"]);
}

#[test]
fn second_run_reuses_the_file_and_gives_the_same_block() {
    let mut w = world(&[("https://example.com/a.png", 200, 2000)]);
    let first = run("https://example.com/page", "out/images", vec![image("/a.png")], &mut w);
    let second = run("https://example.com/page", "out/images", vec![image("/a.png")], &mut w);
    assert_eq!(first, second);
    assert_eq!(first.len(), 1);
    assert_eq!(w.fetches.len(), 1);
    assert_eq!(w.writes.len(), 1);
}

#[test]
fn image_of_eight_hundred_bytes_gives_no_block_and_no_write() {
    let mut w = world(&[("https://example.com/a.png", 200, 800)]);
    let blocks = run("https://example.com/page", "out", vec![image("/a.png")], &mut w);
    assert_eq!(blocks, vec![]);
    assert_eq!(w.writes, Vec::<String>::new());
    assert_eq!(w.fetches, vec!["https://example.com/a.png"]);
}

#[test]
fn size_limit_is_one_kibibyte() {
    let mut w = world(&[("https://example.com/a.png", 200, 1023), ("https://example.com/b.jpg", 200, 1024)]);
    let blocks = run("https://example.com/", "out", vec![image("/a.png"), image("/b.jpg")], &mut w);
    assert_eq!(
        blocks,
        vec![ContentBlock::Image {
            original_url: "https://example.com/b.jpg".to_string(),
            local_path: "out/c7756891cc67449f.jpg".to_string(),
            alt_text: String::new(),
        }]
    );
}

#[test]
fn next_source_is_tried_when_one_fails() {
    let mut w = world(&[("https://example.com/a.png", 404, 5000), ("https://example.com/lazy.jpg", 200, 5000)]);
    let c = ImageCandidate {
        src: "/a.png".to_string(),
        data_src: Some("/lazy.jpg".to_string()),
        srcset: None,
        alt: "Alt".to_string(),
    };
    let blocks = run("https://example.com/", "out", vec![c], &mut w);
    assert_eq!(
        blocks,
        vec![ContentBlock::Image {
            original_url: "https://example.com/lazy.jpg".to_string(),
            local_path: "out/3aa346a467185769.jpg".to_string(),
            alt_text: "Alt".to_string(),
        }]
    );
    assert_eq!(w.fetches, vec!["https://example.com/a.png", "https://example.com/lazy.jpg"]);
}

#[test]
fn tracker_ends_its_image_but_not_the_others() {
    let mut w = world(&[("https://example.com/lazy.jpg", 200, 5000), ("https://example.com/b.jpg", 200, 5000)]);
    let first = ImageCandidate {
        src: "https://example.com/pixel.gif".to_string(),
        data_src: Some("/lazy.jpg".to_string()),
        srcset: None,
        alt: String::new(),
    };
    let blocks = run("https://example.com/", "out", vec![first, image("/b.jpg")], &mut w);
    assert_eq!(w.fetches, vec!["https://example.com/b.jpg"]);
    assert_eq!(blocks.len(), 1);
}

#[test]
fn url_seen_before_on_the_page_is_passed_over() {
    let mut w = world(&[("https://example.com/b.jpg", 200, 5000)]);
    let blocks = run("https://example.com/", "out", vec![image("/b.jpg"), image("b.jpg"), image("data:image/gif;base64,AA")], &mut w);
    assert_eq!(blocks.len(), 1);
    assert_eq!(w.fetches.len(), 1);
}

#[test]
fn failed_write_gives_no_block() {
    let mut pipeline = ImagePipeline::new("https://example.com/", "out", vec![image("/b.jpg")]);
    assert_eq!(pipeline.action(), ImageAction::Probe { path: "out/c7756891cc67449f.jpg".to_string() });
    pipeline.step(ImageEvent::Probed { exists: false });
    assert_eq!(pipeline.action(), ImageAction::Fetch { url: "https://example.com/b.jpg".to_string() });
    pipeline.step(ImageEvent::Fetched { status: 200, len: 4096 });
    assert_eq!(pipeline.action(), ImageAction::Store { path: "out/c7756891cc67449f.jpg".to_string() });
    pipeline.step(ImageEvent::Stored { ok: false });
    assert_eq!(pipeline.action(), ImageAction::Finished);
    assert_eq!(pipeline.blocks(), &vec![]);
}
