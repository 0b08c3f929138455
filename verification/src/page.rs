//! The page scraper and the aggregate: title and meta tags of a page, its
//! word count, the record of a page and the result of a run.
use vstd::prelude::*;
use vstd::string::*;
use crate::content::{
    image_candidates, text_blocks, BlockModel, CandidateModel, ContentBlock, ImageCandidate,
};
use crate::images::{
    action_of, file_name_of, fresh, is_placeholder, is_tracker, is_worth_keeping,
    law_single_image_is_fetched_and_kept, path_in, settle, stepped, ActionModel, ImageEvent,
};
use crate::web::joined_address;
use crate::dom::{first_where, parsed_nodes, plain_text, tagged, Document, Node, NodeModel};
use crate::text::{same, word_count, words};
use crate::web::{body_of, parse_address, parsed_address, usable_body, Reply};

verus! {

/// The record of one scraped page.
#[derive(Debug, Clone, PartialEq, Eq)]
pub struct PageRecord {
    pub url: String,
    pub title: String,
    pub meta_title: String,
    pub meta_description: String,
    pub content_blocks: Vec<ContentBlock>,
    pub total_words: usize,
}

/// A page as read from its markup, before its images are dealt with.
#[derive(Debug, Clone, PartialEq, Eq)]
pub struct PageDraft {
    pub url: String,
    pub title: String,
    pub meta_title: String,
    pub meta_description: String,
    /// The headings, paragraphs, lists and forms, in document order.
    pub blocks: Vec<ContentBlock>,
    /// The images that the page refers to, in document order.
    pub images: Vec<ImageCandidate>,
}

/// The result of a run.
#[derive(Debug, Clone, PartialEq, Eq)]
pub struct ScrapedData {
    pub total_pages: usize,
    pub pages: Vec<PageRecord>,
}

/// A `PageRecord` as plain values.
pub struct PageModel {
    pub url: Seq<char>,
    pub title: Seq<char>,
    pub meta_title: Seq<char>,
    pub meta_description: Seq<char>,
    pub content_blocks: Seq<BlockModel>,
    pub total_words: usize,
}

/// A `PageDraft` as plain values.
pub struct DraftModel {
    pub url: Seq<char>,
    pub title: Seq<char>,
    pub meta_title: Seq<char>,
    pub meta_description: Seq<char>,
    pub blocks: Seq<BlockModel>,
    pub images: Seq<CandidateModel>,
}

/// A `ScrapedData` as plain values.
pub struct ScrapedModel {
    pub total_pages: usize,
    pub pages: Seq<PageModel>,
}

impl DeepView for PageRecord {
    type V = PageModel;

    open spec fn deep_view(&self) -> PageModel {
        PageModel {
            url: self.url@,
            title: self.title@,
            meta_title: self.meta_title@,
            meta_description: self.meta_description@,
            content_blocks: self.content_blocks.deep_view(),
            total_words: self.total_words,
        }
    }
}

impl DeepView for PageDraft {
    type V = DraftModel;

    open spec fn deep_view(&self) -> DraftModel {
        DraftModel {
            url: self.url@,
            title: self.title@,
            meta_title: self.meta_title@,
            meta_description: self.meta_description@,
            blocks: self.blocks.deep_view(),
            images: self.images.deep_view(),
        }
    }
}

impl DeepView for ScrapedData {
    type V = ScrapedModel;

    open spec fn deep_view(&self) -> ScrapedModel {
        ScrapedModel { total_pages: self.total_pages, pages: self.pages.deep_view() }
    }
}

/// The title of a page: the text of its first `title` element, or
/// `No title` without one.
pub open spec fn page_title(dom: Seq<NodeModel>) -> Seq<char> {
    match first_where(dom, 0, dom.len() as int, tagged("title"@)) {
        Some(i) => plain_text(dom, i),
        None => "No title"@,
    }
}

/// The title and the description that the meta tags of a page give.
pub struct MetaModel {
    pub title: Seq<char>,
    pub description: Seq<char>,
}

/// A field that a meta tag can fill.
#[derive(Debug, Clone, Copy, PartialEq, Eq)]
pub enum MetaField {
    Title,
    Description,
}

/// The field that an element speaks of. One with a `property` is read by
/// it alone: `og:title` or `og:description`. One without is read by its
/// `name`: `title` or `description`.
pub open spec fn meta_field(n: NodeModel) -> Option<MetaField> {
    match n.attr("property"@) {
        Some(p) => if p == "og:title"@ {
            Some(MetaField::Title)
        } else if p == "og:description"@ {
            Some(MetaField::Description)
        } else {
            None
        },
        None => match n.attr("name"@) {
            Some(name) => if name == "title"@ {
                Some(MetaField::Title)
            } else if name == "description"@ {
                Some(MetaField::Description)
            } else {
                None
            },
            None => None,
        },
    }
}

/// What one more node adds to the meta tags read so far: the `content` of
/// a `meta` element becomes the field that the element speaks of, where
/// that field is still empty.
pub open spec fn meta_step(acc: MetaModel, n: NodeModel) -> MetaModel {
    let content = n.attr_or("content"@, Seq::empty());
    if !n.is_tag("meta"@) {
        acc
    } else {
        match meta_field(n) {
            Some(MetaField::Title) => if acc.title.len() == 0 {
                MetaModel { title: content, ..acc }
            } else {
                acc
            },
            Some(MetaField::Description) => if acc.description.len() == 0 {
                MetaModel { description: content, ..acc }
            } else {
                acc
            },
            None => acc,
        }
    }
}

/// The meta tags of the first `hi` nodes.
pub open spec fn meta_in(dom: Seq<NodeModel>, hi: int) -> MetaModel
    decreases hi,
{
    if hi <= 0 {
        MetaModel { title: Seq::empty(), description: Seq::empty() }
    } else {
        meta_step(meta_in(dom, hi - 1), dom[hi - 1])
    }
}

/// The meta tags of a page.
pub open spec fn page_meta(dom: Seq<NodeModel>) -> MetaModel {
    meta_in(dom, dom.len() as int)
}

/// The number of words in the items of a list.
pub open spec fn items_words(items: Seq<Seq<char>>) -> nat
    decreases items.len(),
{
    if items.len() == 0 {
        0
    } else {
        items_words(items.drop_last()) + words(items.last()).len()
    }
}

/// The number of words that a block counts for: those of a heading's or a
/// paragraph's text and of a list's items; none for an image or a form.
pub open spec fn block_words(b: BlockModel) -> nat {
    match b {
        BlockModel::Heading { text, .. } => words(text).len(),
        BlockModel::Paragraph { text } => words(text).len(),
        BlockModel::List { items } => items_words(items),
        _ => 0,
    }
}

/// The number of words of the blocks together.
pub open spec fn total_words(blocks: Seq<BlockModel>) -> nat
    decreases blocks.len(),
{
    if blocks.len() == 0 {
        0
    } else {
        total_words(blocks.drop_last()) + block_words(blocks.last())
    }
}

/// A count as a `usize`: the largest `usize` where it does not fit.
pub open spec fn capped(n: nat) -> usize {
    if n <= usize::MAX {
        n as usize
    } else {
        usize::MAX
    }
}

/// The draft of the page at `url` whose markup parsed to `dom`.
pub open spec fn draft_of(url: Seq<char>, dom: Seq<NodeModel>) -> DraftModel {
    DraftModel {
        url,
        title: page_title(dom),
        meta_title: if page_meta(dom).title.len() > 0 {
            page_meta(dom).title
        } else {
            page_title(dom)
        },
        meta_description: page_meta(dom).description,
        blocks: text_blocks(dom),
        images: image_candidates(dom),
    }
}

/// The draft that the reply to the fetch of `url` gives: none where the
/// fetch did not succeed or `url` is no URL.
pub open spec fn drafted(url: Seq<char>, reply: Option<Reply>) -> Option<DraftModel> {
    match usable_body(reply) {
        Some(body) => if parsed_address(url).is_some() {
            Some(draft_of(url, parsed_nodes(body)))
        } else {
            None
        },
        None => None,
    }
}

/// The record of a drafted page whose images gave `image_blocks`: the
/// draft's blocks, then the image blocks, with the words of all of them
/// counted.
pub open spec fn record_of(draft: DraftModel, image_blocks: Seq<BlockModel>) -> PageModel {
    PageModel {
        url: draft.url,
        title: draft.title,
        meta_title: draft.meta_title,
        meta_description: draft.meta_description,
        content_blocks: draft.blocks + image_blocks,
        total_words: capped(total_words(draft.blocks + image_blocks)),
    }
}

/// The words of blocks one after another are those of the parts together.
pub proof fn lemma_total_words_add(a: Seq<BlockModel>, b: Seq<BlockModel>)
    ensures
        total_words(a + b) == total_words(a) + total_words(b),
    decreases b.len(),
{
    if b.len() == 0 {
        assert(a + b =~= a);
    } else {
        lemma_total_words_add(a, b.drop_last());
        assert((a + b).drop_last() =~= a + b.drop_last());
        assert((a + b).last() == b.last());
    }
}

/// Image blocks count no words.
pub proof fn lemma_images_hold_no_words(images: Seq<BlockModel>)
    requires
        forall|i: int| 0 <= i < images.len() ==> (#[trigger] images[i]) is Image,
    ensures
        total_words(images) == 0,
    decreases images.len(),
{
    if images.len() > 0 {
        lemma_images_hold_no_words(images.drop_last());
    }
}

/// In the record of a page the image blocks follow the blocks read from the
/// markup, in the order in which they were made, and add nothing to the word
/// count: that is the count of the headings, paragraphs and list items.
pub proof fn law_images_come_last_and_count_no_words(draft: DraftModel, images: Seq<BlockModel>)
    requires
        forall|i: int| 0 <= i < images.len() ==> (#[trigger] images[i]) is Image,
    ensures
        ({
            let record = record_of(draft, images);
            &&& record.content_blocks == draft.blocks + images
            &&& record.content_blocks.len() == draft.blocks.len() + images.len()
            &&& forall|i: int|
                0 <= i < draft.blocks.len() ==> record.content_blocks[i] == draft.blocks[i]
            &&& forall|i: int|
                0 <= i < images.len() ==> record.content_blocks[draft.blocks.len() + i]
                    == images[i]
            &&& record.total_words == capped(total_words(draft.blocks))
        }),
{
    lemma_total_words_add(draft.blocks, images);
    lemma_images_hold_no_words(images);
}

/// A page that refers to one image whose `src` resolves to a URL that is
/// neither a placeholder nor a tracker, whose file is missing and whose
/// fetch gives a reply worth keeping: its record holds the blocks read from
/// the markup, in their order, followed by one image block with the resolved
/// URL, the path of the file named after that URL in the output directory
/// and the image's alternative text; and its word count is that of the
/// blocks read from the markup.
pub proof fn law_page_with_one_image(
    draft: DraftModel,
    dir: Seq<char>,
    url: Seq<char>,
    status: u16,
    len: usize,
)
    requires
        draft.images.len() == 1,
        joined_address(draft.url, draft.images[0].src) == Some(url),
        !is_placeholder(url),
        !is_tracker(url),
        is_worth_keeping(status, len),
    ensures
        ({
            let probing = settle(fresh(draft.url, dir, draft.images));
            let missing = stepped(probing, ImageEvent::Probed { exists: false });
            let answered = stepped(missing, ImageEvent::Fetched { status, len });
            let end = stepped(answered, ImageEvent::Stored { ok: true });
            let record = record_of(draft, end.blocks);
            &&& action_of(end) == ActionModel::Finished
            &&& record.content_blocks == draft.blocks.push(
                BlockModel::Image {
                    original_url: url,
                    local_path: path_in(dir, file_name_of(url)),
                    alt_text: draft.images[0].alt,
                },
            )
            &&& record.total_words == capped(total_words(draft.blocks))
        }),
{
    assert(draft.images =~= seq![draft.images[0]]);
    law_single_image_is_fetched_and_kept(draft.url, dir, draft.images[0], url, status, len);
    let probing = settle(fresh(draft.url, dir, draft.images));
    let missing = stepped(probing, ImageEvent::Probed { exists: false });
    let answered = stepped(missing, ImageEvent::Fetched { status, len });
    let end = stepped(answered, ImageEvent::Stored { ok: true });
    law_images_come_last_and_count_no_words(draft, end.blocks);
    assert(draft.blocks + end.blocks =~= draft.blocks.push(end.blocks[0]));
}

/// The title and the description that the meta tags of a page give.
#[derive(Debug, Clone, PartialEq, Eq)]
pub struct PageMeta {
    pub title: String,
    pub description: String,
}

impl DeepView for PageMeta {
    type V = MetaModel;

    open spec fn deep_view(&self) -> MetaModel {
        MetaModel { title: self.title@, description: self.description@ }
    }
}

fn field_of(node: &Node) -> (r: Option<MetaField>)
    ensures
        r == meta_field(node.deep_view()),
{
    match node.attr("property") {
        Some(p) => if same(p.as_str(), "og:title") {
            Some(MetaField::Title)
        } else if same(p.as_str(), "og:description") {
            Some(MetaField::Description)
        } else {
            None
        },
        None => match node.attr("name") {
            Some(name) => if same(name.as_str(), "title") {
                Some(MetaField::Title)
            } else if same(name.as_str(), "description") {
                Some(MetaField::Description)
            } else {
                None
            },
            None => None,
        },
    }
}

fn read_meta(acc: PageMeta, node: &Node) -> (r: PageMeta)
    ensures
        r.deep_view() == meta_step(acc.deep_view(), node.deep_view()),
{
    proof {
        reveal_strlit("");
        assert(""@ =~= Seq::<char>::empty());
    }
    if !node.is_tag("meta") {
        return acc;
    }
    match field_of(node) {
        Some(MetaField::Title) => if acc.title.as_str().is_empty() {
            PageMeta { title: node.attr_or("content", ""), description: acc.description }
        } else {
            acc
        },
        Some(MetaField::Description) => if acc.description.as_str().is_empty() {
            PageMeta { title: acc.title, description: node.attr_or("content", "") }
        } else {
            acc
        },
        None => acc,
    }
}

/// Adding capped counts with saturation gives the capped sum.
proof fn lemma_capped_sum(x: nat, y: nat)
    ensures
        capped(x + y) == capped(x).saturating_add(capped(y)),
{
}

fn count_item_words(items: &Vec<String>) -> (r: usize)
    ensures
        r == capped(items_words(items.deep_view())),
{
    let mut total: usize = 0;
    let mut k: usize = 0;
    assert(items.deep_view().take(0) =~= Seq::<Seq<char>>::empty());
    while k < items.len()
        invariant
            k <= items.len(),
            total == capped(items_words(items.deep_view().take(k as int))),
        decreases items.len() - k,
    {
        let ghost done = items.deep_view().take(k as int);
        let ghost next = items.deep_view().take(k + 1);
        assert(next.drop_last() =~= done);
        assert(next.last() == items[k as int]@);
        let n = word_count(items[k].as_str());
        proof {
            lemma_capped_sum(items_words(done), words(items[k as int]@).len());
        }
        total = total.saturating_add(n);
        k += 1;
    }
    assert(items.deep_view().take(k as int) =~= items.deep_view());
    total
}

fn count_block_words(block: &ContentBlock) -> (r: usize)
    ensures
        r == capped(block_words(block.deep_view())),
{
    match block {
        ContentBlock::Heading { text, .. } => word_count(text.as_str()),
        ContentBlock::Paragraph { text } => word_count(text.as_str()),
        ContentBlock::List { items } => count_item_words(items),
        _ => 0,
    }
}

/// The number of words of the blocks together; the largest `usize` where
/// the count does not fit.
pub fn count_words(blocks: &Vec<ContentBlock>) -> (r: usize)
    ensures
        r == capped(total_words(blocks.deep_view())),
{
    let mut total: usize = 0;
    let mut k: usize = 0;
    assert(blocks.deep_view().take(0) =~= Seq::<BlockModel>::empty());
    while k < blocks.len()
        invariant
            k <= blocks.len(),
            total == capped(total_words(blocks.deep_view().take(k as int))),
        decreases blocks.len() - k,
    {
        let ghost done = blocks.deep_view().take(k as int);
        let ghost next = blocks.deep_view().take(k + 1);
        assert(next.drop_last() =~= done);
        assert(next.last() == blocks[k as int].deep_view());
        let n = count_block_words(&blocks[k]);
        proof {
            lemma_capped_sum(total_words(done), block_words(blocks[k as int].deep_view()));
        }
        total = total.saturating_add(n);
        k += 1;
    }
    assert(blocks.deep_view().take(k as int) =~= blocks.deep_view());
    total
}

impl Document {
    /// The title of the page.
    pub fn title(&self) -> (r: String)
        ensures
            r@ == page_title(self@),
    {
        match self.first_tag("title", 0, self.len()) {
            Some(i) => self.plain_text(i),
            None => "No title".to_owned(),
        }
    }

    /// The title and the description that the page's meta tags give.
    pub fn meta(&self) -> (r: PageMeta)
        ensures
            r.deep_view() == page_meta(self@),
    {
        proof {
            self.lemma_view();
        }
        let mut acc = PageMeta { title: String::new(), description: String::new() };
        let n = self.nodes.len();
        let mut k: usize = 0;
        assert(acc.deep_view() == meta_in(self@, 0)) by {
            assert(acc.title@ =~= Seq::<char>::empty());
            assert(acc.description@ =~= Seq::<char>::empty());
        }
        while k < n
            invariant
                k <= n == self@.len(),
                n == self.nodes.len(),
                forall|t: int|
                    0 <= t < self@.len() ==> self@[t] == (#[trigger] self.nodes[t]).deep_view(),
                acc.deep_view() == meta_in(self@, k as int),
            decreases n - k,
        {
            acc = read_meta(acc, &self.nodes[k]);
            k += 1;
        }
        acc
    }
}

/// The draft of the page at `url` from its parsed markup.
pub fn draft_from(url: &str, doc: &Document) -> (r: PageDraft)
    ensures
        r.deep_view() == draft_of(url@, doc@),
{
    let title = doc.title();
    let meta = doc.meta();
    let meta_title = if meta.title.as_str().is_empty() {
        title.clone()
    } else {
        meta.title
    };
    PageDraft {
        url: url.to_owned(),
        title,
        meta_title,
        meta_description: meta.description,
        blocks: doc.text_blocks(),
        images: doc.image_candidates(),
    }
}

/// The draft that the reply to the fetch of `url` gives.
pub fn draft_page(url: &str, reply: &Option<Reply>) -> (r: Option<PageDraft>)
    ensures
        r.deep_view() == drafted(url@, *reply),
{
    match body_of(reply) {
        Some(body) => {
            if parse_address(url).is_some() {
                let doc = Document::parse(body.as_str());
                Some(draft_from(url, &doc))
            } else {
                None
            }
        },
        None => None,
    }
}

/// The record of a drafted page whose images gave `image_blocks`.
pub fn finish_page(draft: PageDraft, image_blocks: Vec<ContentBlock>) -> (r: PageRecord)
    ensures
        r.deep_view() == record_of(draft.deep_view(), image_blocks.deep_view()),
{
    let ghost text = draft.blocks.deep_view();
    let ghost images = image_blocks.deep_view();
    let mut blocks = draft.blocks;
    assert(text + images.take(0) =~= text);
    for block in it: image_blocks
        invariant
            images == it.seq().map_values(|b: ContentBlock| b.deep_view()),
            blocks.deep_view() == text + images.take(it.index() as int),
    {
        let ghost before = blocks.deep_view();
        let ghost k = it.index() as int;
        blocks.push(block);
        assert(blocks.deep_view() =~= before.push(block.deep_view()));
        assert(text + images.take(k + 1) =~= (text + images.take(k)).push(block.deep_view()));
    }
    assert(images.take(images.len() as int) =~= images);
    let total_words = count_words(&blocks);
    PageRecord {
        url: draft.url,
        title: draft.title,
        meta_title: draft.meta_title,
        meta_description: draft.meta_description,
        content_blocks: blocks,
        total_words,
    }
}

} // verus!
