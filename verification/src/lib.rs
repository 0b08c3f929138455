//! Site discovery and structured page extraction.
//!
//! The library finds the pages of a web site, through its sitemap or by
//! following links, and reads each page into an ordered list of content
//! blocks: headings, paragraphs, lists, forms and images. It reaches neither
//! the network nor the disk. Where a decision depends on what a fetch or a
//! file gives, the library holds the state and says what is to be done next;
//! the caller does it and reports back.
//!
//! - `text`: white space, words, searching and cutting, over characters.
//! - `dom`: the parsed page as nodes in document order.
//! - `content`: from a page to its blocks and its images.
//! - `web`: URLs and replies.
//! - `sitemap`: resolving a sitemap to page URLs.
//! - `crawl`: breadth-first discovery within one host.
//! - `reach`: what a crawl reaches on a given web.
//! - `images`: which image source is fetched and where it is kept.
//! - `page`: title, meta tags, word count, records and the result of a run.
//! - `discovery`: sitemap or crawl.
//! - `driver`: which page is started when, and the result of a run.
pub mod text;
pub mod dom;
pub mod content;
pub mod web;
pub mod crawl;
pub mod reach;
pub mod sitemap;
pub mod images;
pub mod page;
pub mod discovery;
pub mod driver;
