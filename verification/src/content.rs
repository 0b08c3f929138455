//! The content extractor: from a parsed page to its headings, paragraphs,
//! lists and forms in document order, and to the images it refers to.
use vstd::prelude::*;
use vstd::string::*;
use crate::dom::{
    encloses, first_where, flowed_text, nearest_enclosing, spaced_text, subtree_end, tagged,
    Document, Node, NodeModel,
};
use crate::text::{
    eq_ignore_ascii_case, same, same_ignoring_ascii_case, to_uppercase, trim, trimmed,
    uppercase_of,
};

verus! {

/// One control of a form.
#[derive(Debug, Clone, PartialEq, Eq)]
pub struct FormField {
    pub field_type: String,
    pub name: String,
    pub label: String,
    pub placeholder: String,
    pub required: bool,
    /// The choices of a `select`; empty for every other control.
    pub options: Vec<String>,
}

/// One structured unit of a page's content.
#[derive(Debug, Clone, PartialEq, Eq)]
pub enum ContentBlock {
    Heading { level: u8, text: String },
    Paragraph { text: String },
    Image { original_url: String, local_path: String, alt_text: String },
    List { items: Vec<String> },
    Form { action: String, method: String, fields: Vec<FormField>, submit_text: String },
}

/// An image element as found on the page, before anything is fetched.
#[derive(Debug, Clone, PartialEq, Eq)]
pub struct ImageCandidate {
    pub src: String,
    pub data_src: Option<String>,
    pub srcset: Option<String>,
    pub alt: String,
}

/// A `FormField` as plain values.
pub struct FieldModel {
    pub field_type: Seq<char>,
    pub name: Seq<char>,
    pub label: Seq<char>,
    pub placeholder: Seq<char>,
    pub required: bool,
    pub options: Seq<Seq<char>>,
}

/// A `ContentBlock` as plain values.
pub enum BlockModel {
    Heading { level: u8, text: Seq<char> },
    Paragraph { text: Seq<char> },
    Image { original_url: Seq<char>, local_path: Seq<char>, alt_text: Seq<char> },
    List { items: Seq<Seq<char>> },
    Form { action: Seq<char>, method: Seq<char>, fields: Seq<FieldModel>, submit_text: Seq<char> },
}

/// An `ImageCandidate` as plain values.
pub struct CandidateModel {
    pub src: Seq<char>,
    pub data_src: Option<Seq<char>>,
    pub srcset: Option<Seq<char>>,
    pub alt: Seq<char>,
}

impl DeepView for FormField {
    type V = FieldModel;

    open spec fn deep_view(&self) -> FieldModel {
        FieldModel {
            field_type: self.field_type@,
            name: self.name@,
            label: self.label@,
            placeholder: self.placeholder@,
            required: self.required,
            options: self.options.deep_view(),
        }
    }
}

impl DeepView for ContentBlock {
    type V = BlockModel;

    open spec fn deep_view(&self) -> BlockModel {
        match self {
            ContentBlock::Heading { level, text } => BlockModel::Heading {
                level: *level,
                text: text@,
            },
            ContentBlock::Paragraph { text } => BlockModel::Paragraph { text: text@ },
            ContentBlock::Image { original_url, local_path, alt_text } => BlockModel::Image {
                original_url: original_url@,
                local_path: local_path@,
                alt_text: alt_text@,
            },
            ContentBlock::List { items } => BlockModel::List { items: items.deep_view() },
            ContentBlock::Form { action, method, fields, submit_text } => BlockModel::Form {
                action: action@,
                method: method@,
                fields: fields.deep_view(),
                submit_text: submit_text@,
            },
        }
    }
}

impl DeepView for ImageCandidate {
    type V = CandidateModel;

    open spec fn deep_view(&self) -> CandidateModel {
        CandidateModel {
            src: self.src@,
            data_src: self.data_src.deep_view(),
            srcset: self.srcset.deep_view(),
            alt: self.alt@,
        }
    }
}

/// Whether the node is an element whose content is navigation or page
/// furniture, or is not shown at all.
pub open spec fn is_boilerplate(n: NodeModel) -> bool {
    ||| n.is_tag("nav"@)
    ||| n.is_tag("header"@)
    ||| n.is_tag("footer"@)
    ||| n.is_tag("script"@)
    ||| n.is_tag("style"@)
    ||| n.is_tag("noscript"@)
}

/// Whether node `i` has an ancestor that is boilerplate.
pub open spec fn shadowed(dom: Seq<NodeModel>, i: int) -> bool {
    exists|j: int| #[trigger] encloses(dom, j, i) && is_boilerplate(dom[j])
}

/// Whether node `j` comes before `i` and every node between them stands
/// deeper than `j`: what `j` encloses has not ended before `i`.
pub open spec fn open_before(dom: Seq<NodeModel>, j: int, i: int) -> bool {
    &&& 0 <= j < i <= dom.len()
    &&& forall|m: int| j < m < i ==> (#[trigger] dom[m]).depth > dom[j].depth
}

proof fn lemma_open_step(dom: Seq<NodeModel>, j: int, i: int)
    requires
        0 <= i < dom.len(),
    ensures
        open_before(dom, j, i + 1) <==> (j == i || (open_before(dom, j, i) && dom[i].depth
            > dom[j].depth)),
        encloses(dom, j, i) <==> (open_before(dom, j, i) && dom[i].depth > dom[j].depth),
{
    if open_before(dom, j, i) && dom[i].depth > dom[j].depth {
        assert(encloses(dom, j, i));
        assert(open_before(dom, j, i + 1));
    }
    if open_before(dom, j, i + 1) && j != i {
        assert(dom[i].depth > dom[j].depth);
        assert(open_before(dom, j, i));
    }
    if encloses(dom, j, i) {
        assert(dom[i].depth > dom[j].depth);
        assert(open_before(dom, j, i));
    }
}

/// What `shadow_flags` knows before node `i`: `limit` is the depth of the
/// outermost boilerplate element that is still open, if any is.
spec fn limit_fits(dom: Seq<NodeModel>, i: int, limit: Option<usize>) -> bool {
    match limit {
        Some(d) => {
            &&& exists|j: int| #[trigger]
                open_before(dom, j, i) && is_boilerplate(dom[j]) && dom[j].depth == d
            &&& forall|j: int| #[trigger]
                open_before(dom, j, i) && is_boilerplate(dom[j]) ==> dom[j].depth >= d
        },
        None => forall|j: int| !(#[trigger] open_before(dom, j, i) && is_boilerplate(dom[j])),
    }
}

/// Whether the node is boilerplate.
pub fn is_boilerplate_node(node: &Node) -> (r: bool)
    ensures
        r == is_boilerplate(node.deep_view()),
{
    node.is_tag("nav") || node.is_tag("header") || node.is_tag("footer") || node.is_tag("script")
        || node.is_tag("style") || node.is_tag("noscript")
}

/// For each node, whether it stands inside boilerplate. One pass over the
/// document.
pub fn shadow_flags(doc: &Document) -> (flags: Vec<bool>)
    ensures
        flags.len() == doc@.len(),
        forall|i: int| 0 <= i < flags.len() ==> flags[i] == shadowed(doc@, i),
{
    proof {
        doc.lemma_view();
    }
    let mut flags: Vec<bool> = Vec::new();
    let mut limit: Option<usize> = None;
    let mut i: usize = 0;
    while i < doc.nodes.len()
        invariant
            i <= doc.nodes.len() == doc@.len(),
            flags.len() == i,
            forall|t: int| 0 <= t < i ==> flags[t] == shadowed(doc@, t),
            forall|t: int| 0 <= t < doc@.len() ==> doc@[t] == (#[trigger] doc.nodes[t]).deep_view(),
            limit_fits(doc@, i as int, limit),
        decreases doc.nodes.len() - i,
    {
        let ghost dom = doc@;
        let ghost before = limit;
        let depth = doc.nodes[i].depth;
        assert(dom[i as int].depth == depth);
        let inside = match limit {
            Some(d) => depth > d,
            None => false,
        };
        proof {
            if inside {
                let j = choose|j: int| #[trigger]
                    open_before(dom, j, i as int) && is_boilerplate(dom[j]) && dom[j].depth
                        == before.unwrap();
                lemma_open_step(dom, j, i as int);
                assert(encloses(dom, j, i as int));
            } else {
                assert forall|j: int| !(#[trigger] encloses(dom, j, i as int) && is_boilerplate(
                    dom[j],
                )) by {
                    lemma_open_step(dom, j, i as int);
                    if encloses(dom, j, i as int) && is_boilerplate(dom[j]) {
                        assert(open_before(dom, j, i as int));
                    }
                }
            }
        }
        flags.push(inside);
        let here = is_boilerplate_node(&doc.nodes[i]);
        if inside {
            proof {
                let j = choose|j: int| #[trigger]
                    open_before(dom, j, i as int) && is_boilerplate(dom[j]) && dom[j].depth
                        == before.unwrap();
                lemma_open_step(dom, j, i as int);
                assert(open_before(dom, j, i + 1));
                assert forall|j2: int| #[trigger]
                    open_before(dom, j2, i + 1) && is_boilerplate(dom[j2]) implies dom[j2].depth
                    >= before.unwrap() by {
                    lemma_open_step(dom, j2, i as int);
                    if j2 != i {
                        assert(open_before(dom, j2, i as int));
                    }
                }
            }
        } else if here {
            limit = Some(depth);
            proof {
                lemma_open_step(dom, i as int, i as int);
                assert(open_before(dom, i as int, i + 1));
                assert forall|j2: int| #[trigger]
                    open_before(dom, j2, i + 1) && is_boilerplate(dom[j2]) implies dom[j2].depth
                    >= depth by {
                    lemma_open_step(dom, j2, i as int);
                    if j2 != i {
                        assert(open_before(dom, j2, i as int));
                        assert(encloses(dom, j2, i as int));
                    }
                }
            }
        } else {
            limit = None;
            proof {
                assert forall|j2: int| !(#[trigger] open_before(dom, j2, i + 1) && is_boilerplate(
                    dom[j2],
                )) by {
                    lemma_open_step(dom, j2, i as int);
                    if open_before(dom, j2, i + 1) && is_boilerplate(dom[j2]) {
                        assert(j2 != i);
                        assert(open_before(dom, j2, i as int));
                        assert(encloses(dom, j2, i as int));
                    }
                }
            }
        }
        i += 1;
    }
    flags
}

/// The predicate "is a `label` element that names `id` in its `for`".
pub open spec fn label_for(id: Seq<char>) -> spec_fn(NodeModel) -> bool {
    |n: NodeModel| n.is_tag("label"@) && n.attr("for"@) == Some(id)
}

/// Text of the first `label` of the document whose `for` names the `id` of
/// control `k`; empty where the control has no `id` or no label names it.
pub open spec fn referenced_label(dom: Seq<NodeModel>, k: int) -> Seq<char> {
    match dom[k].attr("id"@) {
        Some(id) => match first_where(dom, 0, dom.len() as int, label_for(id)) {
            Some(l) => spaced_text(dom, l),
            None => Seq::empty(),
        },
        None => Seq::empty(),
    }
}

/// Text of the nearest `label` around control `k`; empty where none is.
pub open spec fn wrapping_label(dom: Seq<NodeModel>, k: int) -> Seq<char> {
    match nearest_enclosing(dom, k, tagged("label"@)) {
        Some(l) => spaced_text(dom, l),
        None => Seq::empty(),
    }
}

/// The label of control `k`: the one that names it, else the one around it.
pub open spec fn label_of(dom: Seq<NodeModel>, k: int) -> Seq<char> {
    if referenced_label(dom, k).len() > 0 {
        referenced_label(dom, k)
    } else {
        wrapping_label(dom, k)
    }
}

/// The non-empty texts of the `option` elements in `lo..hi`, in order.
pub open spec fn options_in(dom: Seq<NodeModel>, lo: int, hi: int) -> Seq<Seq<char>>
    decreases hi - lo,
{
    if hi <= lo {
        Seq::empty()
    } else if dom[hi - 1].is_tag("option"@) && spaced_text(dom, hi - 1).len() > 0 {
        options_in(dom, lo, hi - 1).push(spaced_text(dom, hi - 1))
    } else {
        options_in(dom, lo, hi - 1)
    }
}

/// Whether the node is an `input`, a `textarea` or a `select`.
pub open spec fn is_control(n: NodeModel) -> bool {
    n.is_tag("input"@) || n.is_tag("textarea"@) || n.is_tag("select"@)
}

/// The type of a control: its `type` attribute, else the element's name.
pub open spec fn control_type(n: NodeModel) -> Seq<char> {
    n.attr_or("type"@, n.tag())
}

/// Whether a control of this type is listed among a form's fields.
pub open spec fn is_listed_type(t: Seq<char>) -> bool {
    t != "hidden"@ && t != "submit"@ && t != "button"@
}

/// The field that control `k` stands for.
pub open spec fn field_at(dom: Seq<NodeModel>, k: int) -> FieldModel {
    FieldModel {
        field_type: control_type(dom[k]),
        name: dom[k].attr_or("name"@, Seq::empty()),
        label: label_of(dom, k),
        placeholder: dom[k].attr_or("placeholder"@, Seq::empty()),
        required: dom[k].attr("required"@).is_some(),
        options: if dom[k].is_tag("select"@) {
            options_in(dom, k + 1, subtree_end(dom, k))
        } else {
            Seq::empty()
        },
    }
}

/// The fields of the listed controls in `lo..hi`, in order.
pub open spec fn fields_in(dom: Seq<NodeModel>, lo: int, hi: int) -> Seq<FieldModel>
    decreases hi - lo,
{
    if hi <= lo {
        Seq::empty()
    } else if is_control(dom[hi - 1]) && is_listed_type(control_type(dom[hi - 1])) {
        fields_in(dom, lo, hi - 1).push(field_at(dom, hi - 1))
    } else {
        fields_in(dom, lo, hi - 1)
    }
}

/// Whether the element's `type` is `submit`: compared without regard to the
/// case of ASCII letters on an element of HTML, exactly on any other.
pub open spec fn type_is_submit(n: NodeModel) -> bool {
    match n.attr("type"@) {
        Some(t) => if n.is_html() {
            same_ignoring_ascii_case(t, "submit"@)
        } else {
            t == "submit"@
        },
        None => false,
    }
}

/// Whether the node submits a form: a `button` of type `submit` or of no
/// type, or an `input` of type `submit`.
pub open spec fn is_submit_control(n: NodeModel) -> bool {
    ||| n.is_tag("button"@) && (type_is_submit(n) || n.attr("type"@).is_none())
    ||| n.is_tag("input"@) && type_is_submit(n)
}

/// The predicate "submits a form".
pub open spec fn submit_control() -> spec_fn(NodeModel) -> bool {
    |n: NodeModel| is_submit_control(n)
}

/// What the submit control `k` shows: the `value` of an `input`, the text of
/// a `button`, without white space at the ends.
pub open spec fn control_caption(dom: Seq<NodeModel>, k: int) -> Seq<char> {
    if dom[k].is_tag("input"@) {
        trimmed(dom[k].attr_or("value"@, Seq::empty()))
    } else {
        spaced_text(dom, k)
    }
}

/// The caption of the first submit control in form `i`, or `Submit` where
/// the form has none or its caption is empty.
pub open spec fn submit_caption(dom: Seq<NodeModel>, i: int) -> Seq<char> {
    match first_where(dom, i + 1, subtree_end(dom, i), submit_control()) {
        Some(k) => if control_caption(dom, k).len() > 0 {
            control_caption(dom, k)
        } else {
            "Submit"@
        },
        None => "Submit"@,
    }
}

/// The form block of form element `i`.
pub open spec fn form_at(dom: Seq<NodeModel>, i: int) -> BlockModel {
    BlockModel::Form {
        action: dom[i].attr_or("action"@, Seq::empty()),
        method: uppercase_of(dom[i].attr_or("method"@, "get"@)),
        fields: fields_in(dom, i + 1, subtree_end(dom, i)),
        submit_text: submit_caption(dom, i),
    }
}

/// The non-empty texts of the `li` elements in `lo..hi`, in order.
pub open spec fn items_in(dom: Seq<NodeModel>, lo: int, hi: int) -> Seq<Seq<char>>
    decreases hi - lo,
{
    if hi <= lo {
        Seq::empty()
    } else if dom[hi - 1].is_tag("li"@) && flowed_text(dom, hi - 1).len() > 0 {
        items_in(dom, lo, hi - 1).push(flowed_text(dom, hi - 1))
    } else {
        items_in(dom, lo, hi - 1)
    }
}

/// The items of list `i`: the texts of the `li` elements below it.
pub open spec fn list_items(dom: Seq<NodeModel>, i: int) -> Seq<Seq<char>> {
    items_in(dom, i + 1, subtree_end(dom, i))
}

/// The level of a heading element, `h1` to `h6`.
pub open spec fn heading_level(n: NodeModel) -> Option<u8> {
    if n.is_tag("h1"@) {
        Some(1u8)
    } else if n.is_tag("h2"@) {
        Some(2u8)
    } else if n.is_tag("h3"@) {
        Some(3u8)
    } else if n.is_tag("h4"@) {
        Some(4u8)
    } else if n.is_tag("h5"@) {
        Some(5u8)
    } else if n.is_tag("h6"@) {
        Some(6u8)
    } else {
        None
    }
}

/// Least number of characters that a paragraph must exceed to be kept.
pub const PARAGRAPH_FLOOR: usize = 20;

/// The block that node `i` gives, if it gives one: nothing inside
/// boilerplate; a heading with its text unless that is empty; a paragraph
/// unless its text is no longer than the floor; a list unless it has no
/// item; a form.
pub open spec fn block_at(dom: Seq<NodeModel>, i: int) -> Option<BlockModel> {
    if shadowed(dom, i) {
        None
    } else if heading_level(dom[i]).is_some() {
        if spaced_text(dom, i).len() > 0 {
            Some(
                BlockModel::Heading {
                    level: heading_level(dom[i]).unwrap(),
                    text: spaced_text(dom, i),
                },
            )
        } else {
            None
        }
    } else if dom[i].is_tag("p"@) {
        if flowed_text(dom, i).len() > PARAGRAPH_FLOOR {
            Some(BlockModel::Paragraph { text: flowed_text(dom, i) })
        } else {
            None
        }
    } else if dom[i].is_tag("ul"@) || dom[i].is_tag("ol"@) {
        if list_items(dom, i).len() > 0 {
            Some(BlockModel::List { items: list_items(dom, i) })
        } else {
            None
        }
    } else if dom[i].is_tag("form"@) {
        Some(form_at(dom, i))
    } else {
        None
    }
}

/// A heading outside boilerplate is kept exactly if its text is not empty,
/// with the level of its tag: 1 for `h1` up to 6 for `h6`.
pub proof fn law_heading_keeps_its_level(dom: Seq<NodeModel>, i: int)
    requires
        0 <= i < dom.len(),
        heading_level(dom[i]).is_some(),
        !shadowed(dom, i),
    ensures
        spaced_text(dom, i).len() == 0 ==> block_at(dom, i).is_none(),
        spaced_text(dom, i).len() > 0 ==> block_at(dom, i) == Some(
            BlockModel::Heading {
                level: heading_level(dom[i]).unwrap(),
                text: spaced_text(dom, i),
            },
        ),
        dom[i].is_tag("h1"@) ==> heading_level(dom[i]) == Some(1u8),
        dom[i].is_tag("h2"@) ==> heading_level(dom[i]) == Some(2u8),
        dom[i].is_tag("h3"@) ==> heading_level(dom[i]) == Some(3u8),
        dom[i].is_tag("h4"@) ==> heading_level(dom[i]) == Some(4u8),
        dom[i].is_tag("h5"@) ==> heading_level(dom[i]) == Some(5u8),
        dom[i].is_tag("h6"@) ==> heading_level(dom[i]) == Some(6u8),
{
    reveal_strlit("h1");
    reveal_strlit("h2");
    reveal_strlit("h3");
    reveal_strlit("h4");
    reveal_strlit("h5");
    reveal_strlit("h6");
    assert("h1"@[1] == '1' && "h2"@[1] == '2' && "h3"@[1] == '3');
    assert("h4"@[1] == '4' && "h5"@[1] == '5' && "h6"@[1] == '6');
}

/// A paragraph outside boilerplate is kept exactly if its text, with white
/// space collapsed, is longer than twenty characters: one of nineteen or of
/// twenty is dropped, one of twenty-one is kept.
pub proof fn law_paragraph_floor(dom: Seq<NodeModel>, i: int)
    requires
        0 <= i < dom.len(),
        dom[i].is_tag("p"@),
        !shadowed(dom, i),
    ensures
        flowed_text(dom, i).len() <= 20 ==> block_at(dom, i).is_none(),
        flowed_text(dom, i).len() > 20 ==> block_at(dom, i) == Some(
            BlockModel::Paragraph { text: flowed_text(dom, i) },
        ),
{
    reveal_strlit("p");
    reveal_strlit("h1");
    reveal_strlit("h2");
    reveal_strlit("h3");
    reveal_strlit("h4");
    reveal_strlit("h5");
    reveal_strlit("h6");
    assert("p"@.len() == 1);
    assert("h1"@.len() == 2 && "h2"@.len() == 2 && "h3"@.len() == 2);
    assert("h4"@.len() == 2 && "h5"@.len() == 2 && "h6"@.len() == 2);
    assert(heading_level(dom[i]).is_none());
}

/// The blocks that the nodes in `lo..hi` give, in order.
pub open spec fn blocks_in(dom: Seq<NodeModel>, lo: int, hi: int) -> Seq<BlockModel>
    decreases hi - lo,
{
    if hi <= lo {
        Seq::empty()
    } else {
        match block_at(dom, hi - 1) {
            Some(b) => blocks_in(dom, lo, hi - 1).push(b),
            None => blocks_in(dom, lo, hi - 1),
        }
    }
}

/// The predicate "is an element whose `role` is `main`".
pub open spec fn main_landmark() -> spec_fn(NodeModel) -> bool {
    |n: NodeModel| n.is_element() && n.attr("role"@) == Some("main"@)
}

/// The node at which extraction starts: the first `main`, else the first
/// `article`, else the first element whose role is `main`, else the first
/// `body`.
pub open spec fn content_root(dom: Seq<NodeModel>) -> Option<int> {
    let n = dom.len() as int;
    if first_where(dom, 0, n, tagged("main"@)).is_some() {
        first_where(dom, 0, n, tagged("main"@))
    } else if first_where(dom, 0, n, tagged("article"@)).is_some() {
        first_where(dom, 0, n, tagged("article"@))
    } else if first_where(dom, 0, n, main_landmark()).is_some() {
        first_where(dom, 0, n, main_landmark())
    } else {
        first_where(dom, 0, n, tagged("body"@))
    }
}

/// The headings, paragraphs, lists and forms of the page: the blocks of the
/// content root and of the nodes below it, in document order.
pub open spec fn text_blocks(dom: Seq<NodeModel>) -> Seq<BlockModel> {
    match content_root(dom) {
        Some(r) => blocks_in(dom, r, subtree_end(dom, r)),
        None => Seq::empty(),
    }
}

/// The image that node `i` refers to: an `img` outside boilerplate that has
/// a `src`.
pub open spec fn candidate_at(dom: Seq<NodeModel>, i: int) -> Option<CandidateModel> {
    if !shadowed(dom, i) && dom[i].is_tag("img"@) && dom[i].attr("src"@).is_some() {
        Some(
            CandidateModel {
                src: dom[i].attr("src"@).unwrap(),
                data_src: dom[i].attr("data-src"@),
                srcset: dom[i].attr("srcset"@),
                alt: dom[i].attr_or("alt"@, Seq::empty()),
            },
        )
    } else {
        None
    }
}

/// The images that the nodes in `lo..hi` refer to, in order.
pub open spec fn candidates_in(dom: Seq<NodeModel>, lo: int, hi: int) -> Seq<CandidateModel>
    decreases hi - lo,
{
    if hi <= lo {
        Seq::empty()
    } else {
        match candidate_at(dom, hi - 1) {
            Some(c) => candidates_in(dom, lo, hi - 1).push(c),
            None => candidates_in(dom, lo, hi - 1),
        }
    }
}

/// The images of the page: those of the content root and of the nodes below
/// it, in document order.
pub open spec fn image_candidates(dom: Seq<NodeModel>) -> Seq<CandidateModel> {
    match content_root(dom) {
        Some(r) => candidates_in(dom, r, subtree_end(dom, r)),
        None => Seq::empty(),
    }
}

fn first_label_for(doc: &Document, id: &str) -> (r: Option<usize>)
    ensures
        r.is_some() == first_where(doc@, 0, doc@.len() as int, label_for(id@)).is_some(),
        r.is_some() ==> r.unwrap() == first_where(
            doc@,
            0,
            doc@.len() as int,
            label_for(id@),
        ).unwrap(),
        r.is_some() ==> r.unwrap() < doc@.len(),
{
    proof {
        doc.lemma_view();
    }
    let n = doc.nodes.len();
    let mut k: usize = 0;
    while k < n
        invariant
            k <= n == doc@.len(),
            n == doc.nodes.len(),
            forall|t: int| 0 <= t < doc@.len() ==> doc@[t] == (#[trigger] doc.nodes[t]).deep_view(),
            first_where(doc@, 0, n as int, label_for(id@)) == first_where(
                doc@,
                k as int,
                n as int,
                label_for(id@),
            ),
        decreases n - k,
    {
        let node = &doc.nodes[k];
        if node.is_tag("label") {
            match node.attr("for") {
                Some(v) => {
                    if same(v.as_str(), id) {
                        return Some(k);
                    }
                },
                None => {},
            }
        }
        k += 1;
    }
    None
}

fn first_main_landmark(doc: &Document) -> (r: Option<usize>)
    ensures
        r.is_some() == first_where(doc@, 0, doc@.len() as int, main_landmark()).is_some(),
        r.is_some() ==> r.unwrap() == first_where(
            doc@,
            0,
            doc@.len() as int,
            main_landmark(),
        ).unwrap(),
        r.is_some() ==> r.unwrap() < doc@.len(),
{
    proof {
        doc.lemma_view();
    }
    let n = doc.nodes.len();
    let mut k: usize = 0;
    while k < n
        invariant
            k <= n == doc@.len(),
            n == doc.nodes.len(),
            forall|t: int| 0 <= t < doc@.len() ==> doc@[t] == (#[trigger] doc.nodes[t]).deep_view(),
            first_where(doc@, 0, n as int, main_landmark()) == first_where(
                doc@,
                k as int,
                n as int,
                main_landmark(),
            ),
        decreases n - k,
    {
        let node = &doc.nodes[k];
        if node.is_element() {
            match node.attr("role") {
                Some(v) => {
                    if same(v.as_str(), "main") {
                        return Some(k);
                    }
                },
                None => {},
            }
        }
        k += 1;
    }
    None
}

fn has_submit_type(node: &Node) -> (r: bool)
    ensures
        r == type_is_submit(node.deep_view()),
{
    match node.attr("type") {
        Some(t) => if node.is_html() {
            eq_ignore_ascii_case(t.as_str(), "submit")
        } else {
            same(t.as_str(), "submit")
        },
        None => false,
    }
}

fn submits(node: &Node) -> (r: bool)
    ensures
        r == is_submit_control(node.deep_view()),
{
    if node.is_tag("button") {
        has_submit_type(node) || node.attr("type").is_none()
    } else if node.is_tag("input") {
        has_submit_type(node)
    } else {
        false
    }
}

fn first_submit_control(doc: &Document, lo: usize, hi: usize) -> (r: Option<usize>)
    requires
        lo <= hi <= doc@.len(),
    ensures
        r.is_some() == first_where(doc@, lo as int, hi as int, submit_control()).is_some(),
        r.is_some() ==> r.unwrap() == first_where(
            doc@,
            lo as int,
            hi as int,
            submit_control(),
        ).unwrap(),
        r.is_some() ==> lo <= r.unwrap() < hi,
{
    proof {
        doc.lemma_view();
    }
    let mut k: usize = lo;
    while k < hi
        invariant
            lo <= k <= hi <= doc@.len(),
            doc@.len() == doc.nodes.len(),
            forall|t: int| 0 <= t < doc@.len() ==> doc@[t] == (#[trigger] doc.nodes[t]).deep_view(),
            first_where(doc@, lo as int, hi as int, submit_control()) == first_where(
                doc@,
                k as int,
                hi as int,
                submit_control(),
            ),
        decreases hi - k,
    {
        if submits(&doc.nodes[k]) {
            return Some(k);
        }
        k += 1;
    }
    None
}

fn label_text(doc: &Document, k: usize) -> (r: String)
    requires
        k < doc@.len(),
    ensures
        r@ == label_of(doc@, k as int),
{
    proof {
        doc.lemma_view();
    }
    let mut label = String::new();
    match doc.nodes[k].attr("id") {
        Some(id) => {
            match first_label_for(doc, id.as_str()) {
                Some(l) => {
                    label = doc.spaced_text(l);
                },
                None => {},
            }
        },
        None => {},
    }
    assert(label@ == referenced_label(doc@, k as int));
    if label.as_str().is_empty() {
        match doc.nearest_tag(k, "label") {
            Some(l) => {
                label = doc.spaced_text(l);
            },
            None => {},
        }
    }
    label
}

fn options_of(doc: &Document, lo: usize, hi: usize) -> (r: Vec<String>)
    requires
        lo <= hi <= doc@.len(),
    ensures
        r.deep_view() == options_in(doc@, lo as int, hi as int),
{
    proof {
        doc.lemma_view();
    }
    let mut out: Vec<String> = Vec::new();
    let mut k: usize = lo;
    assert(out.deep_view() == Seq::<Seq<char>>::empty());
    while k < hi
        invariant
            lo <= k <= hi <= doc@.len(),
            doc@.len() == doc.nodes.len(),
            forall|t: int| 0 <= t < doc@.len() ==> doc@[t] == (#[trigger] doc.nodes[t]).deep_view(),
            out.deep_view() == options_in(doc@, lo as int, k as int),
        decreases hi - k,
    {
        if doc.nodes[k].is_tag("option") {
            let text = doc.spaced_text(k);
            if !text.as_str().is_empty() {
                let ghost before = out.deep_view();
                out.push(text);
                assert(out.deep_view() == before.push(text@));
            }
        }
        k += 1;
    }
    out
}

fn is_control_node(node: &Node) -> (r: bool)
    ensures
        r == is_control(node.deep_view()),
{
    node.is_tag("input") || node.is_tag("textarea") || node.is_tag("select")
}

fn control_type_of(node: &Node) -> (r: String)
    ensures
        r@ == control_type(node.deep_view()),
{
    match node.attr("type") {
        Some(t) => t.clone(),
        None => node.tag(),
    }
}

fn is_listed(field_type: &str) -> (r: bool)
    ensures
        r == is_listed_type(field_type@),
{
    !same(field_type, "hidden") && !same(field_type, "submit") && !same(field_type, "button")
}

fn field_of(doc: &Document, k: usize, field_type: String) -> (r: FormField)
    requires
        k < doc@.len(),
        field_type@ == control_type(doc@[k as int]),
    ensures
        r.deep_view() == field_at(doc@, k as int),
{
    proof {
        doc.lemma_view();
        reveal_strlit("");
        assert(""@ =~= Seq::<char>::empty());
    }
    let node = &doc.nodes[k];
    let options = if node.is_tag("select") {
        let end = doc.subtree_end(k);
        options_of(doc, k + 1, end)
    } else {
        let none: Vec<String> = Vec::new();
        assert(none.deep_view() == Seq::<Seq<char>>::empty());
        none
    };
    FormField {
        field_type,
        name: node.attr_or("name", ""),
        label: label_text(doc, k),
        placeholder: node.attr_or("placeholder", ""),
        required: node.attr("required").is_some(),
        options,
    }
}

fn fields_of(doc: &Document, lo: usize, hi: usize) -> (r: Vec<FormField>)
    requires
        lo <= hi <= doc@.len(),
    ensures
        r.deep_view() == fields_in(doc@, lo as int, hi as int),
{
    proof {
        doc.lemma_view();
    }
    let mut out: Vec<FormField> = Vec::new();
    let mut k: usize = lo;
    assert(out.deep_view() == Seq::<FieldModel>::empty());
    while k < hi
        invariant
            lo <= k <= hi <= doc@.len(),
            doc@.len() == doc.nodes.len(),
            forall|t: int| 0 <= t < doc@.len() ==> doc@[t] == (#[trigger] doc.nodes[t]).deep_view(),
            out.deep_view() == fields_in(doc@, lo as int, k as int),
        decreases hi - k,
    {
        if is_control_node(&doc.nodes[k]) {
            let field_type = control_type_of(&doc.nodes[k]);
            if is_listed(field_type.as_str()) {
                let field = field_of(doc, k, field_type);
                let ghost before = out.deep_view();
                out.push(field);
                assert(out.deep_view() == before.push(field.deep_view()));
            }
        }
        k += 1;
    }
    out
}

fn submit_text_of(doc: &Document, i: usize) -> (r: String)
    requires
        i < doc@.len(),
    ensures
        r@ == submit_caption(doc@, i as int),
{
    proof {
        doc.lemma_view();
        reveal_strlit("");
        assert(""@ =~= Seq::<char>::empty());
    }
    let end = doc.subtree_end(i);
    match first_submit_control(doc, i + 1, end) {
        Some(k) => {
            let caption = if doc.nodes[k].is_tag("input") {
                let value = doc.nodes[k].attr_or("value", "");
                trim(value.as_str())
            } else {
                doc.spaced_text(k)
            };
            if caption.as_str().is_empty() {
                "Submit".to_owned()
            } else {
                caption
            }
        },
        None => "Submit".to_owned(),
    }
}

fn form_block(doc: &Document, i: usize) -> (r: ContentBlock)
    requires
        i < doc@.len(),
    ensures
        r.deep_view() == form_at(doc@, i as int),
{
    proof {
        doc.lemma_view();
        reveal_strlit("");
        assert(""@ =~= Seq::<char>::empty());
    }
    let node = &doc.nodes[i];
    let end = doc.subtree_end(i);
    let method = node.attr_or("method", "get");
    ContentBlock::Form {
        action: node.attr_or("action", ""),
        method: to_uppercase(method.as_str()),
        fields: fields_of(doc, i + 1, end),
        submit_text: submit_text_of(doc, i),
    }
}

fn items_of(doc: &Document, lo: usize, hi: usize) -> (r: Vec<String>)
    requires
        lo <= hi <= doc@.len(),
    ensures
        r.deep_view() == items_in(doc@, lo as int, hi as int),
{
    proof {
        doc.lemma_view();
    }
    let mut out: Vec<String> = Vec::new();
    let mut k: usize = lo;
    assert(out.deep_view() == Seq::<Seq<char>>::empty());
    while k < hi
        invariant
            lo <= k <= hi <= doc@.len(),
            doc@.len() == doc.nodes.len(),
            forall|t: int| 0 <= t < doc@.len() ==> doc@[t] == (#[trigger] doc.nodes[t]).deep_view(),
            out.deep_view() == items_in(doc@, lo as int, k as int),
        decreases hi - k,
    {
        if doc.nodes[k].is_tag("li") {
            let text = doc.flowed_text(k);
            if !text.as_str().is_empty() {
                let ghost before = out.deep_view();
                out.push(text);
                assert(out.deep_view() == before.push(text@));
            }
        }
        k += 1;
    }
    out
}

fn heading_level_of(node: &Node) -> (r: Option<u8>)
    ensures
        r == heading_level(node.deep_view()),
{
    if node.is_tag("h1") {
        Some(1)
    } else if node.is_tag("h2") {
        Some(2)
    } else if node.is_tag("h3") {
        Some(3)
    } else if node.is_tag("h4") {
        Some(4)
    } else if node.is_tag("h5") {
        Some(5)
    } else if node.is_tag("h6") {
        Some(6)
    } else {
        None
    }
}

fn block_of(doc: &Document, hidden: bool, i: usize) -> (r: Option<ContentBlock>)
    requires
        i < doc@.len(),
        hidden == shadowed(doc@, i as int),
    ensures
        r.deep_view() == block_at(doc@, i as int),
{
    proof {
        doc.lemma_view();
    }
    let node = &doc.nodes[i];
    if hidden {
        return None;
    }
    match heading_level_of(node) {
        Some(level) => {
            let text = doc.spaced_text(i);
            return if text.as_str().is_empty() {
                None
            } else {
                Some(ContentBlock::Heading { level, text })
            };
        },
        None => {},
    }
    if node.is_tag("p") {
        let text = doc.flowed_text(i);
        if text.as_str().unicode_len() > PARAGRAPH_FLOOR {
            Some(ContentBlock::Paragraph { text })
        } else {
            None
        }
    } else if node.is_tag("ul") || node.is_tag("ol") {
        let end = doc.subtree_end(i);
        let items = items_of(doc, i + 1, end);
        if items.len() > 0 {
            Some(ContentBlock::List { items })
        } else {
            None
        }
    } else if node.is_tag("form") {
        Some(form_block(doc, i))
    } else {
        None
    }
}

fn candidate_of(doc: &Document, hidden: bool, i: usize) -> (r: Option<ImageCandidate>)
    requires
        i < doc@.len(),
        hidden == shadowed(doc@, i as int),
    ensures
        r.deep_view() == candidate_at(doc@, i as int),
{
    proof {
        doc.lemma_view();
        reveal_strlit("");
        assert(""@ =~= Seq::<char>::empty());
    }
    let node = &doc.nodes[i];
    if hidden || !node.is_tag("img") {
        return None;
    }
    match node.attr("src") {
        Some(src) => Some(
            ImageCandidate {
                src: src.clone(),
                data_src: node.attr_owned("data-src"),
                srcset: node.attr_owned("srcset"),
                alt: node.attr_or("alt", ""),
            },
        ),
        None => None,
    }
}

impl Document {
    /// The node at which extraction starts, if the page has one.
    pub fn content_root(&self) -> (r: Option<usize>)
        ensures
            r.is_some() == content_root(self@).is_some(),
            r.is_some() ==> r.unwrap() == content_root(self@).unwrap(),
            r.is_some() ==> r.unwrap() < self@.len(),
    {
        let n = self.len();
        let main = self.first_tag("main", 0, n);
        if main.is_some() {
            return main;
        }
        let article = self.first_tag("article", 0, n);
        if article.is_some() {
            return article;
        }
        let landmark = first_main_landmark(self);
        if landmark.is_some() {
            return landmark;
        }
        self.first_tag("body", 0, n)
    }

    /// The headings, paragraphs, lists and forms of the page, in document
    /// order.
    pub fn text_blocks(&self) -> (r: Vec<ContentBlock>)
        ensures
            r.deep_view() == text_blocks(self@),
    {
        let mut out: Vec<ContentBlock> = Vec::new();
        assert(out.deep_view() == Seq::<BlockModel>::empty());
        let root = match self.content_root() {
            Some(root) => root,
            None => {
                return out;
            },
        };
        let flags = shadow_flags(self);
        let end = self.subtree_end(root);
        let mut k: usize = root;
        while k < end
            invariant
                root <= k <= end <= self@.len(),
                flags.len() == self@.len(),
                forall|i: int| 0 <= i < flags.len() ==> flags[i] == shadowed(self@, i),
                out.deep_view() == blocks_in(self@, root as int, k as int),
            decreases end - k,
        {
            match block_of(self, flags[k], k) {
                Some(block) => {
                    let ghost before = out.deep_view();
                    out.push(block);
                    assert(out.deep_view() == before.push(block.deep_view()));
                },
                None => {},
            }
            k += 1;
        }
        out
    }

    /// The images that the page refers to, in document order.
    pub fn image_candidates(&self) -> (r: Vec<ImageCandidate>)
        ensures
            r.deep_view() == image_candidates(self@),
    {
        let mut out: Vec<ImageCandidate> = Vec::new();
        assert(out.deep_view() == Seq::<CandidateModel>::empty());
        let root = match self.content_root() {
            Some(root) => root,
            None => {
                return out;
            },
        };
        let flags = shadow_flags(self);
        let end = self.subtree_end(root);
        let mut k: usize = root;
        while k < end
            invariant
                root <= k <= end <= self@.len(),
                flags.len() == self@.len(),
                forall|i: int| 0 <= i < flags.len() ==> flags[i] == shadowed(self@, i),
                out.deep_view() == candidates_in(self@, root as int, k as int),
            decreases end - k,
        {
            match candidate_of(self, flags[k], k) {
                Some(candidate) => {
                    let ghost before = out.deep_view();
                    out.push(candidate);
                    assert(out.deep_view() == before.push(candidate.deep_view()));
                },
                None => {},
            }
            k += 1;
        }
        out
    }
}

} // verus!
