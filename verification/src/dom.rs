//! The document model: a parsed page as its nodes in document order, each
//! with the depth at which it stands.
use vstd::prelude::*;
use vstd::string::*;
use crate::text::{join_glued, join_spaced, normalize, same, trim};

verus! {

/// One attribute of an element.
#[derive(Debug, Clone, PartialEq, Eq)]
pub struct Attribute {
    /// Namespace of the attribute; empty for an ordinary attribute.
    pub namespace: String,
    pub name: String,
    pub value: String,
}

/// What a node is.
#[derive(Debug, Clone, PartialEq, Eq)]
pub enum Content {
    Element { namespace: String, name: String, attrs: Vec<Attribute> },
    Text(String),
    /// The document root, a comment, a doctype or a processing instruction.
    Other,
}

/// A node and the number of nodes that enclose it.
#[derive(Debug, Clone, PartialEq, Eq)]
pub struct Node {
    pub content: Content,
    pub depth: usize,
}

/// A parsed page: its nodes in document order.
#[derive(Debug, Clone, PartialEq, Eq)]
pub struct Document {
    pub nodes: Vec<Node>,
}

/// An `Attribute` as plain values.
pub struct AttrModel {
    pub namespace: Seq<char>,
    pub name: Seq<char>,
    pub value: Seq<char>,
}

/// A `Content` as plain values.
pub enum ContentModel {
    Element { namespace: Seq<char>, name: Seq<char>, attrs: Seq<AttrModel> },
    Text(Seq<char>),
    Other,
}

/// A `Node` as plain values.
pub struct NodeModel {
    pub content: ContentModel,
    pub depth: nat,
}

impl DeepView for Attribute {
    type V = AttrModel;

    open spec fn deep_view(&self) -> AttrModel {
        AttrModel { namespace: self.namespace@, name: self.name@, value: self.value@ }
    }
}

impl DeepView for Content {
    type V = ContentModel;

    open spec fn deep_view(&self) -> ContentModel {
        match self {
            Content::Element { namespace, name, attrs } => ContentModel::Element {
                namespace: namespace@,
                name: name@,
                attrs: attrs.deep_view(),
            },
            Content::Text(t) => ContentModel::Text(t@),
            Content::Other => ContentModel::Other,
        }
    }
}

impl DeepView for Node {
    type V = NodeModel;

    open spec fn deep_view(&self) -> NodeModel {
        NodeModel { content: self.content.deep_view(), depth: self.depth as nat }
    }
}

impl View for Document {
    type V = Seq<NodeModel>;

    open spec fn view(&self) -> Seq<NodeModel> {
        self.nodes.deep_view()
    }
}

/// The nodes of the tree that the HTML parser builds from `text`, in document
/// order from the document root on, each with the number of its ancestors.
pub uninterp spec fn parsed_nodes(text: Seq<char>) -> Seq<NodeModel>;

/// Most characters of a text that is parsed. The parser keeps its texts in
/// buffers that are addressed with 32 bits and grow by doubling, so what it
/// makes of one text has to stay well below that.
pub const MAX_MARKUP_CHARS: usize = 0x1000_0000;

/// Parses `text` with `scraper::Html::parse_document` and hands on the root's
/// `descendants()`, the root first, each node with the count of its
/// `ancestors()`. Nothing is claimed of the nodes but that they depend on
/// `text` alone. A text of more than `MAX_MARKUP_CHARS` characters is not
/// admitted: on a text beyond the parser's buffers the call does not return.
#[verifier::external_body]
pub(crate) fn parse_nodes(text: &str) -> (nodes: Vec<Node>)
    requires
        text@.len() <= MAX_MARKUP_CHARS,
    ensures
        nodes.deep_view() == parsed_nodes(text@),
{
    let doc = scraper::Html::parse_document(text);
    doc.tree.root().descendants().map(|node| Node {
        content: match node.value() {
            scraper::Node::Element(e) => Content::Element {
                namespace: e.name.ns.to_string(),
                name: e.name.local.to_string(),
                attrs: e.attrs.iter().map(|(k, v)| Attribute {
                    namespace: k.ns.to_string(), name: k.local.to_string(), value: v.to_string(),
                }).collect(),
            },
            scraper::Node::Text(t) => Content::Text(t.to_string()),
            _ => Content::Other,
        },
        depth: node.ancestors().count(),
    }).collect()
}

/// Value of the first attribute called `name` that stands in no namespace.
pub open spec fn attr_in(attrs: Seq<AttrModel>, name: Seq<char>) -> Option<Seq<char>>
    decreases attrs.len(),
{
    if attrs.len() == 0 {
        None
    } else if attrs[0].namespace.len() == 0 && attrs[0].name == name {
        Some(attrs[0].value)
    } else {
        attr_in(attrs.drop_first(), name)
    }
}

/// Namespace of the elements of HTML.
pub open spec fn html_namespace() -> Seq<char> {
    "http://www.w3.org/1999/xhtml"@
}

impl NodeModel {
    /// Whether the node is an element.
    pub open spec fn is_element(self) -> bool {
        self.content is Element
    }

    /// Name of the element; empty for any other node.
    pub open spec fn tag(self) -> Seq<char> {
        match self.content {
            ContentModel::Element { name, .. } => name,
            _ => Seq::empty(),
        }
    }

    /// Whether the node is an element called `name`.
    pub open spec fn is_tag(self, name: Seq<char>) -> bool {
        self.content matches ContentModel::Element { name: n, .. } && n == name
    }

    /// Value of the element's attribute `name`, if it has one.
    pub open spec fn attr(self, name: Seq<char>) -> Option<Seq<char>> {
        match self.content {
            ContentModel::Element { attrs, .. } => attr_in(attrs, name),
            _ => None,
        }
    }

    /// Value of the element's attribute `name`, or `default` without one.
    pub open spec fn attr_or(self, name: Seq<char>, default: Seq<char>) -> Seq<char> {
        match self.attr(name) {
            Some(v) => v,
            None => default,
        }
    }

    /// Whether the node is an element of HTML.
    pub open spec fn is_html(self) -> bool {
        self.content matches ContentModel::Element { namespace, .. } && namespace
            == html_namespace()
    }
}

/// First index from `k` on whose node stands no deeper than `d`, or the
/// number of nodes.
pub open spec fn scan_end(dom: Seq<NodeModel>, d: nat, k: int) -> int
    decreases dom.len() - k,
{
    if 0 <= k < dom.len() && dom[k].depth > d {
        scan_end(dom, d, k + 1)
    } else {
        k
    }
}

/// One past the last descendant of node `i`: its descendants are the nodes
/// from `i + 1` up to there.
pub open spec fn subtree_end(dom: Seq<NodeModel>, i: int) -> int {
    scan_end(dom, dom[i].depth, i + 1)
}

/// Whether node `j` is an ancestor of node `i`: it comes earlier, and every
/// node after it up to `i` stands deeper than it.
pub open spec fn encloses(dom: Seq<NodeModel>, j: int, i: int) -> bool {
    &&& 0 <= j < i < dom.len()
    &&& forall|m: int| j < m <= i ==> (#[trigger] dom[m]).depth > dom[j].depth
}

/// Where a scan ends: not before it starts, not past the last node, after
/// nodes that all stand deeper than `d`, and before one that does not.
pub proof fn lemma_scan_end_bounds(dom: Seq<NodeModel>, d: nat, k: int)
    requires
        0 <= k <= dom.len(),
    ensures
        k <= scan_end(dom, d, k) <= dom.len(),
        forall|m: int| k <= m < scan_end(dom, d, k) ==> (#[trigger] dom[m]).depth > d,
        scan_end(dom, d, k) < dom.len() ==> dom[scan_end(dom, d, k)].depth <= d,
    decreases dom.len() - k,
{
    if k < dom.len() && dom[k].depth > d {
        lemma_scan_end_bounds(dom, d, k + 1);
    }
}

/// The predicate "is an element called `name`".
pub open spec fn tagged(name: Seq<char>) -> spec_fn(NodeModel) -> bool {
    |n: NodeModel| n.is_tag(name)
}

/// Index of the first node in `lo..hi` that `p` holds of.
pub open spec fn first_where(
    dom: Seq<NodeModel>,
    lo: int,
    hi: int,
    p: spec_fn(NodeModel) -> bool,
) -> Option<int>
    decreases hi - lo,
{
    if lo >= hi {
        None
    } else if p(dom[lo]) {
        Some(lo)
    } else {
        first_where(dom, lo + 1, hi, p)
    }
}

/// Index of the last node from `j` downwards that encloses node `k` and that
/// `p` holds of.
pub open spec fn nearest_from(
    dom: Seq<NodeModel>,
    k: int,
    j: int,
    p: spec_fn(NodeModel) -> bool,
) -> Option<int>
    decreases j + 1,
{
    if j < 0 {
        None
    } else if encloses(dom, j, k) && p(dom[j]) {
        Some(j)
    } else {
        nearest_from(dom, k, j - 1, p)
    }
}

/// Index of the nearest ancestor of node `k` that `p` holds of.
pub open spec fn nearest_enclosing(
    dom: Seq<NodeModel>,
    k: int,
    p: spec_fn(NodeModel) -> bool,
) -> Option<int> {
    nearest_from(dom, k, k - 1, p)
}

/// The contents of the text nodes in `lo..hi`, in order.
pub open spec fn texts_in(dom: Seq<NodeModel>, lo: int, hi: int) -> Seq<Seq<char>>
    decreases hi - lo,
{
    if hi <= lo {
        Seq::empty()
    } else {
        match dom[hi - 1].content {
            ContentModel::Text(t) => texts_in(dom, lo, hi - 1).push(t),
            _ => texts_in(dom, lo, hi - 1),
        }
    }
}

/// The contents of the text nodes below node `i`, in order.
pub open spec fn inner_texts(dom: Seq<NodeModel>, i: int) -> Seq<Seq<char>> {
    texts_in(dom, i + 1, subtree_end(dom, i))
}

/// The text below node `i`: its text nodes joined by single spaces, without
/// white space at the ends.
pub open spec fn spaced_text(dom: Seq<NodeModel>, i: int) -> Seq<char> {
    crate::text::trimmed(crate::text::spaced(inner_texts(dom, i)))
}

/// The text below node `i` with every run of white space collapsed.
pub open spec fn flowed_text(dom: Seq<NodeModel>, i: int) -> Seq<char> {
    crate::text::normalized(crate::text::spaced(inner_texts(dom, i)))
}

/// The text below node `i`: its text nodes one after another, without white
/// space at the ends.
pub open spec fn plain_text(dom: Seq<NodeModel>, i: int) -> Seq<char> {
    crate::text::trimmed(crate::text::glued(inner_texts(dom, i)))
}

impl Node {
    /// Whether the node is an element.
    pub fn is_element(&self) -> (r: bool)
        ensures
            r == self.deep_view().is_element(),
    {
        match &self.content {
            Content::Element { .. } => true,
            _ => false,
        }
    }

    /// Whether the node is an element called `name`.
    pub fn is_tag(&self, name: &str) -> (r: bool)
        ensures
            r == self.deep_view().is_tag(name@),
    {
        match &self.content {
            Content::Element { name: n, .. } => same(n.as_str(), name),
            _ => false,
        }
    }

    /// Name of the element; empty for any other node.
    pub fn tag(&self) -> (r: String)
        ensures
            r@ == self.deep_view().tag(),
    {
        match &self.content {
            Content::Element { name, .. } => name.clone(),
            _ => String::new(),
        }
    }

    /// Whether the node is an element of HTML.
    pub fn is_html(&self) -> (r: bool)
        ensures
            r == self.deep_view().is_html(),
    {
        match &self.content {
            Content::Element { namespace, .. } => same(
                namespace.as_str(),
                "http://www.w3.org/1999/xhtml",
            ),
            _ => false,
        }
    }

    /// Value of the element's attribute `name`, if it has one.
    pub fn attr(&self, name: &str) -> (r: Option<&String>)
        ensures
            r.is_some() == self.deep_view().attr(name@).is_some(),
            r.is_some() ==> r.unwrap()@ == self.deep_view().attr(name@).unwrap(),
    {
        match &self.content {
            Content::Element { attrs, .. } => {
                let mut k: usize = 0;
                assert(attrs.deep_view().skip(0) == attrs.deep_view());
                while k < attrs.len()
                    invariant
                        k <= attrs.len(),
                        self.deep_view().attr(name@) == attr_in(
                            attrs.deep_view().skip(k as int),
                            name@,
                        ),
                    decreases attrs.len() - k,
                {
                    assert(attrs.deep_view().skip(k as int).drop_first() == attrs.deep_view().skip(
                        k + 1,
                    ));
                    assert(attrs.deep_view().skip(k as int)[0] == attrs[k as int].deep_view());
                    if attrs[k].namespace.as_str().is_empty() && same(
                        attrs[k].name.as_str(),
                        name,
                    ) {
                        return Some(&attrs[k].value);
                    }
                    k += 1;
                }
                None
            },
            _ => None,
        }
    }

    /// A copy of the value of the element's attribute `name`, if it has one.
    pub fn attr_owned(&self, name: &str) -> (r: Option<String>)
        ensures
            r.deep_view() == self.deep_view().attr(name@),
    {
        match self.attr(name) {
            Some(v) => Some(v.clone()),
            None => None,
        }
    }

    /// Value of the element's attribute `name`, or `default` without one.
    pub fn attr_or(&self, name: &str, default: &str) -> (r: String)
        ensures
            r@ == self.deep_view().attr_or(name@, default@),
    {
        match self.attr(name) {
            Some(v) => v.clone(),
            None => default.to_owned(),
        }
    }
}

impl Document {
    /// Parses a page of at most `MAX_MARKUP_CHARS` characters.
    pub fn parse(text: &str) -> (doc: Document)
        requires
            text@.len() <= MAX_MARKUP_CHARS,
        ensures
            doc@ == parsed_nodes(text@),
    {
        Document { nodes: parse_nodes(text) }
    }

    /// Parses a page, unless it is longer than `MAX_MARKUP_CHARS`
    /// characters.
    pub fn try_parse(text: &str) -> (r: Option<Document>)
        ensures
            r.is_some() == (text@.len() <= MAX_MARKUP_CHARS),
            r matches Some(doc) ==> doc@ == parsed_nodes(text@),
    {
        if text.unicode_len() <= MAX_MARKUP_CHARS {
            Some(Document::parse(text))
        } else {
            None
        }
    }

    /// The view holds one node model for each node, in the same order.
    pub proof fn lemma_view(&self)
        ensures
            self@.len() == self.nodes.len(),
            forall|i: int|
                0 <= i < self@.len() ==> self@[i] == (#[trigger] self.nodes[i]).deep_view(),
    {
    }

    /// The number of nodes.
    pub fn len(&self) -> (n: usize)
        ensures
            n == self@.len(),
    {
        self.nodes.len()
    }

    /// One past the last descendant of node `i`.
    pub fn subtree_end(&self, i: usize) -> (end: usize)
        requires
            i < self@.len(),
        ensures
            end == subtree_end(self@, i as int),
            i < end <= self@.len(),
    {
        proof {
            self.lemma_view();
        }
        let d = self.nodes[i].depth;
        let mut k: usize = i + 1;
        proof {
            lemma_scan_end_bounds(self@, d as nat, i + 1);
        }
        while k < self.nodes.len() && self.nodes[k].depth > d
            invariant
                i < k <= self.nodes.len(),
                d == self@[i as int].depth,
                scan_end(self@, d as nat, i + 1) == scan_end(self@, d as nat, k as int),
            decreases self.nodes.len() - k,
        {
            k += 1;
        }
        k
    }

    /// Index of the first element called `name` among the nodes `lo..hi`.
    pub fn first_tag(&self, name: &str, lo: usize, hi: usize) -> (r: Option<usize>)
        requires
            lo <= hi <= self@.len(),
        ensures
            r.is_some() == first_where(self@, lo as int, hi as int, tagged(name@)).is_some(),
            r.is_some() ==> r.unwrap() == first_where(
                self@,
                lo as int,
                hi as int,
                tagged(name@),
            ).unwrap(),
            r.is_some() ==> lo <= r.unwrap() < hi,
    {
        let mut k: usize = lo;
        while k < hi
            invariant
                lo <= k <= hi <= self@.len(),
                first_where(self@, lo as int, hi as int, tagged(name@)) == first_where(
                    self@,
                    k as int,
                    hi as int,
                    tagged(name@),
                ),
            decreases hi - k,
        {
            if self.nodes[k].is_tag(name) {
                return Some(k);
            }
            k += 1;
        }
        None
    }

    /// Index of the nearest ancestor of node `k` that is an element called
    /// `name`.
    pub fn nearest_tag(&self, k: usize, name: &str) -> (r: Option<usize>)
        requires
            k < self@.len(),
        ensures
            r.is_some() == nearest_enclosing(self@, k as int, tagged(name@)).is_some(),
            r.is_some() ==> r.unwrap() == nearest_enclosing(
                self@,
                k as int,
                tagged(name@),
            ).unwrap(),
            r.is_some() ==> r.unwrap() < k,
    {
        proof {
            self.lemma_view();
        }
        let mut j: usize = k;
        let mut low: usize = self.nodes[k].depth;
        while j > 0
            invariant
                j <= k < self@.len(),
                self@.len() == self.nodes.len(),
                forall|t: int|
                    0 <= t < self@.len() ==> self@[t] == (#[trigger] self.nodes[t]).deep_view(),
                forall|m: int| j <= m <= k ==> (#[trigger] self@[m]).depth >= low,
                exists|m: int| j <= m <= k && (#[trigger] self@[m]).depth == low,
                nearest_enclosing(self@, k as int, tagged(name@)) == nearest_from(
                    self@,
                    k as int,
                    j - 1,
                    tagged(name@),
                ),
            decreases j,
        {
            let c = j - 1;
            let d = self.nodes[c].depth;
            assert(self@[c as int].depth == d);
            if d < low {
                assert(encloses(self@, c as int, k as int));
                if self.nodes[c].is_tag(name) {
                    return Some(c);
                }
                low = d;
            } else {
                assert(!encloses(self@, c as int, k as int));
            }
            j = c;
        }
        None
    }

    /// The contents of the text nodes below node `i`, in order.
    pub fn inner_texts(&self, i: usize) -> (r: Vec<String>)
        requires
            i < self@.len(),
        ensures
            r.deep_view() == inner_texts(self@, i as int),
    {
        let end = self.subtree_end(i);
        let mut out: Vec<String> = Vec::new();
        let mut k: usize = i + 1;
        assert(out.deep_view() == Seq::<Seq<char>>::empty());
        while k < end
            invariant
                i < k <= end <= self@.len(),
                out.deep_view() == texts_in(self@, i + 1, k as int),
            decreases end - k,
        {
            match &self.nodes[k].content {
                Content::Text(t) => {
                    let ghost before = out.deep_view();
                    out.push(t.clone());
                    assert(out.deep_view() == before.push(t@));
                },
                _ => {},
            }
            k += 1;
        }
        out
    }

    /// The text below node `i`, joined by spaces and trimmed.
    pub fn spaced_text(&self, i: usize) -> (r: String)
        requires
            i < self@.len(),
        ensures
            r@ == spaced_text(self@, i as int),
    {
        let parts = self.inner_texts(i);
        let joined = join_spaced(&parts);
        trim(joined.as_str())
    }

    /// The text below node `i` with white space collapsed.
    pub fn flowed_text(&self, i: usize) -> (r: String)
        requires
            i < self@.len(),
        ensures
            r@ == flowed_text(self@, i as int),
    {
        let parts = self.inner_texts(i);
        let joined = join_spaced(&parts);
        normalize(joined.as_str())
    }

    /// The text below node `i`, unseparated and trimmed.
    pub fn plain_text(&self, i: usize) -> (r: String)
        requires
            i < self@.len(),
        ensures
            r@ == plain_text(self@, i as int),
    {
        let parts = self.inner_texts(i);
        let joined = join_glued(&parts);
        trim(joined.as_str())
    }
}

} // verus!
