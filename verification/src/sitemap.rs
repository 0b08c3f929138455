//! The sitemap resolver: from a sitemap, through the sitemaps it refers to,
//! to the flat list of page URLs. The caller fetches; the resolver decides.
use std::collections::VecDeque;
use vstd::prelude::*;
use vstd::string::*;
use crate::dom::{parsed_nodes, plain_text, Document, NodeModel};
use crate::text::{contains, ends_with, has_substring, has_suffix, same};
use crate::web::{body_of, usable_body, Reply};

verus! {

/// Whether a body is taken for a sitemap: it holds the start of a `urlset`
/// or of a `sitemapindex` tag.
pub open spec fn is_sitemap_shaped(body: Seq<char>) -> bool {
    has_substring(body, "<urlset"@) || has_substring(body, "<sitemapindex"@)
}

/// Whether a location names a further sitemap rather than a page.
pub open spec fn names_sitemap(location: Seq<char>) -> bool {
    has_suffix(location, ".xml"@)
}

/// The texts of the `loc` elements in `lo..hi`, in order.
pub open spec fn locations_in(dom: Seq<NodeModel>, lo: int, hi: int) -> Seq<Seq<char>>
    decreases hi - lo,
{
    if hi <= lo {
        Seq::empty()
    } else if dom[hi - 1].is_tag("loc"@) {
        locations_in(dom, lo, hi - 1).push(plain_text(dom, hi - 1))
    } else {
        locations_in(dom, lo, hi - 1)
    }
}

/// The locations that a sitemap lists, in document order.
pub open spec fn locations(dom: Seq<NodeModel>) -> Seq<Seq<char>> {
    locations_in(dom, 0, dom.len() as int)
}

/// What the fetch of a location gave.
#[derive(Debug, Clone, PartialEq, Eq)]
pub enum Listing {
    /// The fetch failed.
    Unavailable,
    /// A body that is no sitemap: the location is a page.
    Page,
    /// A sitemap, with the locations it lists.
    Sitemap(Vec<String>),
}

/// A `Listing` as plain values.
pub enum ListingModel {
    Unavailable,
    Page,
    Sitemap(Seq<Seq<char>>),
}

impl DeepView for Listing {
    type V = ListingModel;

    open spec fn deep_view(&self) -> ListingModel {
        match self {
            Listing::Unavailable => ListingModel::Unavailable,
            Listing::Page => ListingModel::Page,
            Listing::Sitemap(l) => ListingModel::Sitemap(l.deep_view()),
        }
    }
}

/// The listing that a reply holds.
pub open spec fn listing_of(reply: Option<Reply>) -> ListingModel {
    match usable_body(reply) {
        Some(body) => if is_sitemap_shaped(body) {
            ListingModel::Sitemap(locations(parsed_nodes(body)))
        } else {
            ListingModel::Page
        },
        None => ListingModel::Unavailable,
    }
}

/// What waits to be looked at: a location, or the mark that ends the
/// locations of the sitemap that was opened last.
#[derive(Debug, Clone, PartialEq, Eq)]
pub enum Item {
    Visit(String),
    Leave,
}

/// An `Item` as plain values.
pub enum ItemModel {
    Visit(Seq<char>),
    Leave,
}

impl DeepView for Item {
    type V = ItemModel;

    open spec fn deep_view(&self) -> ItemModel {
        match self {
            Item::Visit(u) => ItemModel::Visit(u@),
            Item::Leave => ItemModel::Leave,
        }
    }
}

/// The state of a resolution.
pub struct WalkModel {
    /// What is still to be looked at; the first item is next.
    pub pending: Seq<ItemModel>,
    /// The sitemaps whose locations are being looked at, the outermost
    /// first.
    pub open: Seq<Seq<char>>,
    /// The page URLs found so far.
    pub found: Seq<Seq<char>>,
    /// The location whose listing is awaited.
    pub current: Option<Seq<char>>,
    /// Whether nothing was fetched yet: the next location is the one that the
    /// resolution was started with.
    pub at_root: bool,
    /// Whether the fetch of the first location failed.
    pub failed: bool,
}

/// The resolution before its first step.
pub open spec fn start(url: Seq<char>) -> WalkModel {
    WalkModel {
        pending: seq![ItemModel::Visit(url)],
        open: Seq::empty(),
        found: Seq::empty(),
        current: None,
        at_root: true,
        failed: false,
    }
}

/// The locations as items to visit.
pub open spec fn visits(locations: Seq<Seq<char>>) -> Seq<ItemModel> {
    locations.map_values(|u: Seq<char>| ItemModel::Visit(u))
}

/// `open` without its last sitemap.
pub open spec fn closed_one(open: Seq<Seq<char>>) -> Seq<Seq<char>> {
    if open.len() > 0 {
        open.drop_last()
    } else {
        open
    }
}

/// The resolution after its next step. Items are taken from the head of
/// what is pending until a location is to be fetched, which is then awaited.
/// A location is fetched if it is the one the resolution was started with,
/// or names a sitemap that is not being looked at already: a sitemap that
/// lists itself, directly or through others, is passed over there. Any other
/// location is a page and is found. A mark closes the sitemap opened last.
pub open spec fn advanced(m: WalkModel) -> WalkModel
    decreases m.pending.len(),
{
    let idle = WalkModel { current: None, ..m };
    if idle.pending.len() == 0 {
        idle
    } else {
        let rest = WalkModel { pending: idle.pending.drop_first(), ..idle };
        match idle.pending[0] {
            ItemModel::Leave => advanced(WalkModel { open: closed_one(idle.open), ..rest }),
            ItemModel::Visit(url) => if idle.at_root || names_sitemap(url) {
                if idle.open.contains(url) {
                    advanced(rest)
                } else {
                    WalkModel { current: Some(url), ..rest }
                }
            } else {
                advanced(WalkModel { found: idle.found.push(url), ..rest })
            },
        }
    }
}

/// The resolution after the awaited listing came. A sitemap is opened: its
/// locations, and the mark that ends them, take the place of the location
/// that listed them. A page is found. A failure drops the location, and
/// fails the resolution if it was the first one.
pub open spec fn fed(m: WalkModel, listing: ListingModel) -> WalkModel {
    match m.current {
        Some(url) => {
            let idle = WalkModel { current: None, at_root: false, ..m };
            match listing {
                ListingModel::Unavailable => WalkModel { failed: m.at_root, ..idle },
                ListingModel::Page => WalkModel { found: idle.found.push(url), ..idle },
                ListingModel::Sitemap(l) => WalkModel {
                    open: idle.open.push(url),
                    pending: visits(l) + seq![ItemModel::Leave] + idle.pending,
                    ..idle
                },
            }
        },
        None => m,
    }
}

/// Whether nothing is left to do.
pub open spec fn finished(m: WalkModel) -> bool {
    m.current.is_none() && m.pending.len() == 0
}

/// What the resolution gives: the pages found, or nothing where it failed.
pub open spec fn outcome(m: WalkModel) -> Option<Seq<Seq<char>>> {
    if m.failed {
        None
    } else {
        Some(m.found)
    }
}

/// The resolution run from `m` on: each awaited listing is taken from
/// `listings`, in order, until none is awaited or none is left.
pub open spec fn run(m: WalkModel, listings: Seq<ListingModel>) -> WalkModel
    decreases listings.len(),
{
    let a = advanced(m);
    if listings.len() == 0 || a.current.is_none() {
        a
    } else {
        run(fed(a, listings[0]), listings.drop_first())
    }
}

/// Whether a body is taken for a sitemap.
pub fn looks_like_sitemap(body: &str) -> (r: bool)
    ensures
        r == is_sitemap_shaped(body@),
{
    contains(body, "<urlset") || contains(body, "<sitemapindex")
}

/// The locations that a sitemap lists, in document order.
pub fn sitemap_locations(doc: &Document) -> (r: Vec<String>)
    ensures
        r.deep_view() == locations(doc@),
{
    proof {
        doc.lemma_view();
    }
    let n = doc.nodes.len();
    let mut out: Vec<String> = Vec::new();
    let mut k: usize = 0;
    assert(out.deep_view() == Seq::<Seq<char>>::empty());
    while k < n
        invariant
            k <= n == doc@.len(),
            n == doc.nodes.len(),
            forall|t: int| 0 <= t < doc@.len() ==> doc@[t] == (#[trigger] doc.nodes[t]).deep_view(),
            out.deep_view() == locations_in(doc@, 0, k as int),
        decreases n - k,
    {
        if doc.nodes[k].is_tag("loc") {
            let text = doc.plain_text(k);
            let ghost before = out.deep_view();
            out.push(text);
            assert(out.deep_view() == before.push(text@));
        }
        k += 1;
    }
    out
}

/// The listing that a reply holds.
pub fn read_listing(reply: &Option<Reply>) -> (r: Listing)
    ensures
        r.deep_view() == listing_of(*reply),
{
    match body_of(reply) {
        Some(body) => {
            if looks_like_sitemap(body.as_str()) {
                let doc = Document::parse(body.as_str());
                Listing::Sitemap(sitemap_locations(&doc))
            } else {
                Listing::Page
            }
        },
        None => Listing::Unavailable,
    }
}

/// A resolution in progress.
pub struct SitemapWalk {
    pending: VecDeque<Item>,
    open: Vec<String>,
    found: Vec<String>,
    current: Option<String>,
    at_root: bool,
    failed: bool,
}

impl View for SitemapWalk {
    type V = WalkModel;

    closed spec fn view(&self) -> WalkModel {
        WalkModel {
            pending: self.pending.deep_view(),
            open: self.open.deep_view(),
            found: self.found.deep_view(),
            current: self.current.deep_view(),
            at_root: self.at_root,
            failed: self.failed,
        }
    }
}

fn holds(list: &Vec<String>, url: &str) -> (r: bool)
    ensures
        r == list.deep_view().contains(url@),
{
    let mut k: usize = 0;
    while k < list.len()
        invariant
            k <= list.len(),
            forall|i: int| 0 <= i < k ==> list.deep_view()[i] != url@,
        decreases list.len() - k,
    {
        if same(list[k].as_str(), url) {
            assert(list.deep_view()[k as int] == url@);
            return true;
        }
        k += 1;
    }
    false
}

impl SitemapWalk {
    /// A resolution that starts at `url`.
    pub fn new(url: &str) -> (w: SitemapWalk)
        ensures
            w@ == start(url@),
    {
        let mut pending: VecDeque<Item> = VecDeque::new();
        pending.push_back(Item::Visit(url.to_owned()));
        let found: Vec<String> = Vec::new();
        let open: Vec<String> = Vec::new();
        let w = SitemapWalk { pending, open, found, current: None, at_root: true, failed: false };
        proof {
            assert(w@.pending =~= seq![ItemModel::Visit(url@)]);
            assert(w@.found =~= Seq::empty());
            assert(w@.open =~= Seq::empty());
        }
        w
    }

    /// Takes the next step and says which location is to be fetched for it;
    /// none when the resolution is over.
    pub fn next(&mut self) -> (r: Option<String>)
        ensures
            final(self)@ == advanced(old(self)@),
            r.deep_view() == final(self)@.current,
            r.is_none() ==> finished(final(self)@),
    {
        self.current = None;
        while self.pending.len() > 0
            invariant
                self@.current.is_none(),
                advanced(old(self)@) == advanced(self@),
            decreases self.pending.len(),
        {
            let ghost before = self@;
            let head = self.pending.pop_front().unwrap();
            assert(self@.pending =~= before.pending.drop_first());
            assert(before.pending[0] == head.deep_view());
            match head {
                Item::Leave => {
                    if self.open.len() > 0 {
                        self.open.pop();
                        assert(self@.open =~= before.open.drop_last());
                    }
                },
                Item::Visit(url) => {
                    if self.at_root || ends_with(url.as_str(), ".xml") {
                        if !holds(&self.open, url.as_str()) {
                            self.current = Some(url.clone());
                            return Some(url);
                        }
                    } else {
                        self.found.push(url);
                        assert(self@.found =~= before.found.push(url@));
                    }
                },
            }
        }
        None
    }

    /// Hands the resolution the listing it awaits.
    pub fn feed_listing(&mut self, listing: Listing)
        ensures
            final(self)@ == fed(old(self)@, listing.deep_view()),
    {
        let current = self.current.take();
        let url = match current {
            Some(url) => url,
            None => {
                return ;
            },
        };
        let was_root = self.at_root;
        self.at_root = false;
        let ghost idle = self@;
        match listing {
            Listing::Unavailable => {
                self.failed = was_root;
            },
            Listing::Page => {
                self.found.push(url);
                assert(self@.found =~= idle.found.push(url@));
            },
            Listing::Sitemap(list) => {
                self.open.push(url);
                assert(self@.open =~= idle.open.push(url@));
                self.pending.push_front(Item::Leave);
                let ghost tail = seq![ItemModel::Leave] + idle.pending;
                assert(self@.pending =~= tail);
                let mut k: usize = list.len();
                assert(visits(list.deep_view().skip(k as int)) + tail =~= tail);
                while k > 0
                    invariant
                        k <= list.len(),
                        self@ == (WalkModel {
                            open: idle.open.push(url@),
                            pending: visits(list.deep_view().skip(k as int)) + tail,
                            ..idle
                        }),
                    decreases k,
                {
                    k -= 1;
                    let ghost before = self@.pending;
                    self.pending.push_front(Item::Visit(list[k].clone()));
                    assert(self@.pending =~= seq![ItemModel::Visit(list[k as int]@)] + before);
                    assert(seq![ItemModel::Visit(list[k as int]@)] + (visits(
                        list.deep_view().skip(k + 1),
                    ) + tail) =~= visits(list.deep_view().skip(k as int)) + tail);
                }
                assert(list.deep_view().skip(0) =~= list.deep_view());
                assert(visits(list.deep_view()) + tail =~= visits(list.deep_view())
                    + seq![ItemModel::Leave] + idle.pending);
            },
        }
    }

    /// Hands the resolution the reply to the fetch it awaits.
    pub fn feed(&mut self, reply: &Option<Reply>)
        ensures
            final(self)@ == fed(old(self)@, listing_of(*reply)),
    {
        self.feed_listing(read_listing(reply))
    }

    /// Whether nothing is left to do.
    pub fn is_finished(&self) -> (r: bool)
        ensures
            r == finished(self@),
    {
        self.current.is_none() && self.pending.len() == 0
    }

    /// Ends the resolution: the pages found, or nothing where the fetch of
    /// the first location failed.
    pub fn into_outcome(self) -> (r: Option<Vec<String>>)
        ensures
            r.deep_view() == outcome(self@),
    {
        if self.failed {
            None
        } else {
            Some(self.found)
        }
    }
}

/// What `advanced` does to a resolution that is past its first location
/// and whose pending items are `pages`, none of which names a sitemap, then
/// `marks` marks, then `rest`, which is empty or starts with a location
/// that names a sitemap which is not open once the marks have closed theirs.
proof fn lemma_advance_over_pages(
    m: WalkModel,
    pages: Seq<Seq<char>>,
    marks: nat,
    rest: Seq<ItemModel>,
)
    requires
        !m.at_root,
        marks <= 1,
        marks <= m.open.len(),
        m.pending == visits(pages) + (if marks == 1 {
            seq![ItemModel::Leave]
        } else {
            Seq::empty()
        }) + rest,
        forall|i: int| 0 <= i < pages.len() ==> !names_sitemap(#[trigger] pages[i]),
        rest.len() > 0 ==> (rest[0] matches ItemModel::Visit(u) && names_sitemap(u) && !(if marks
            == 1 {
            m.open.drop_last()
        } else {
            m.open
        }).contains(u)),
    ensures
        advanced(m) == (WalkModel {
            pending: if rest.len() > 0 {
                rest.drop_first()
            } else {
                rest
            },
            open: if marks == 1 {
                m.open.drop_last()
            } else {
                m.open
            },
            found: m.found + pages,
            current: if rest.len() > 0 {
                Some(rest[0]->Visit_0)
            } else {
                None
            },
            ..m
        }),
    decreases pages.len(), marks,
{
    let idle = WalkModel { current: None, ..m };
    let mark = if marks == 1 {
        seq![ItemModel::Leave]
    } else {
        Seq::empty()
    };
    if pages.len() > 0 {
        let head = pages[0];
        assert(idle.pending[0] == ItemModel::Visit(head));
        let moved = WalkModel {
            found: idle.found.push(head),
            pending: idle.pending.drop_first(),
            ..idle
        };
        assert(moved.pending =~= visits(pages.drop_first()) + mark + rest);
        lemma_advance_over_pages(moved, pages.drop_first(), marks, rest);
        assert(moved.found + pages.drop_first() =~= m.found + pages);
    } else if marks == 1 {
        assert(idle.pending[0] == ItemModel::Leave);
        let left = WalkModel {
            open: closed_one(idle.open),
            pending: idle.pending.drop_first(),
            ..idle
        };
        assert(left.pending =~= visits(pages) + Seq::<ItemModel>::empty() + rest);
        lemma_advance_over_pages(left, pages, 0, rest);
    } else {
        assert(m.pending =~= rest);
        assert(m.found + pages =~= m.found);
    }
}

/// The listings of sitemaps that list `groups`, one sitemap for each group.
pub open spec fn sitemaps_of(groups: Seq<Seq<Seq<char>>>) -> Seq<ListingModel> {
    groups.map_values(|g: Seq<Seq<char>>| ListingModel::Sitemap(g))
}

proof fn lemma_run_over_sitemaps(
    m: WalkModel,
    pages: Seq<Seq<char>>,
    marks: nat,
    subs: Seq<Seq<char>>,
    groups: Seq<Seq<Seq<char>>>,
    root: Seq<char>,
)
    requires
        !m.at_root,
        marks <= 1,
        m.open.len() == 1 + marks,
        m.open[0] == root,
        m.pending == visits(pages) + (if marks == 1 {
            seq![ItemModel::Leave]
        } else {
            Seq::empty()
        }) + (visits(subs) + seq![ItemModel::Leave]),
        subs.len() == groups.len(),
        forall|i: int| 0 <= i < pages.len() ==> !names_sitemap(#[trigger] pages[i]),
        forall|i: int| 0 <= i < subs.len() ==> names_sitemap(#[trigger] subs[i]) && subs[i] != root,
        forall|i: int, j: int|
            0 <= i < groups.len() && 0 <= j < groups[i].len() ==> !names_sitemap(
                #[trigger] groups[i][j],
            ),
    ensures
        run(m, sitemaps_of(groups)) == (WalkModel {
            pending: Seq::empty(),
            open: Seq::empty(),
            found: m.found + pages + groups.flatten(),
            current: None,
            ..m
        }),
    decreases subs.len(),
{
    let listings = sitemaps_of(groups);
    let after_marks = if marks == 1 {
        m.open.drop_last()
    } else {
        m.open
    };
    assert(after_marks =~= seq![root]);
    if subs.len() == 0 {
        let rest = seq![ItemModel::Leave];
        assert(visits(subs) + seq![ItemModel::Leave] =~= rest);
        lemma_advance_to_end(m, pages, marks, root);
        assert(groups.flatten() =~= Seq::<Seq<char>>::empty());
        assert(m.found + pages + groups.flatten() =~= m.found + pages);
    } else {
        let rest = visits(subs) + seq![ItemModel::Leave];
        assert(rest[0] == ItemModel::Visit(subs[0]));
        assert(!after_marks.contains(subs[0]));
        lemma_advance_over_pages(m, pages, marks, rest);
        let a = advanced(m);
        assert(a.current == Some(subs[0]));
        let next = fed(a, listings[0]);
        assert(listings[0] == ListingModel::Sitemap(groups[0]));
        assert(rest.drop_first() =~= visits(subs.drop_first()) + seq![ItemModel::Leave]);
        assert(next.pending =~= visits(groups[0]) + seq![ItemModel::Leave] + (visits(
            subs.drop_first(),
        ) + seq![ItemModel::Leave]));
        assert(next.open =~= seq![root, subs[0]]);
        assert(listings.drop_first() =~= sitemaps_of(groups.drop_first()));
        assert forall|i: int, j: int|
            0 <= i < groups.drop_first().len() && 0 <= j < groups.drop_first()[i].len()
            implies !names_sitemap(#[trigger] groups.drop_first()[i][j]) by {
            assert(groups.drop_first()[i] == groups[i + 1]);
            assert(!names_sitemap(groups[i + 1][j]));
        }
        assert forall|i: int| 0 <= i < groups[0].len() implies !names_sitemap(
            #[trigger] groups[0][i],
        ) by {}
        assert forall|i: int| 0 <= i < subs.drop_first().len() implies names_sitemap(
            #[trigger] subs.drop_first()[i],
        ) && subs.drop_first()[i] != root by {
            assert(subs.drop_first()[i] == subs[i + 1]);
        }
        lemma_run_over_sitemaps(
            next,
            groups[0],
            1,
            subs.drop_first(),
            groups.drop_first(),
            root,
        );
        assert(next.found + groups[0] + groups.drop_first().flatten() =~= m.found + pages
            + groups.flatten());
    }
}

/// What `advanced` does when only pages and closing marks are left.
proof fn lemma_advance_to_end(m: WalkModel, pages: Seq<Seq<char>>, marks: nat, root: Seq<char>)
    requires
        !m.at_root,
        marks <= 1,
        m.open.len() == 1 + marks,
        m.pending == visits(pages) + (if marks == 1 {
            seq![ItemModel::Leave]
        } else {
            Seq::empty()
        }) + seq![ItemModel::Leave],
        forall|i: int| 0 <= i < pages.len() ==> !names_sitemap(#[trigger] pages[i]),
    ensures
        advanced(m) == (WalkModel {
            pending: Seq::empty(),
            open: Seq::empty(),
            found: m.found + pages,
            current: None,
            ..m
        }),
    decreases pages.len(), marks,
{
    let idle = WalkModel { current: None, ..m };
    let mark = if marks == 1 {
        seq![ItemModel::Leave]
    } else {
        Seq::empty()
    };
    if pages.len() > 0 {
        let head = pages[0];
        assert(idle.pending[0] == ItemModel::Visit(head));
        let moved = WalkModel {
            found: idle.found.push(head),
            pending: idle.pending.drop_first(),
            ..idle
        };
        assert(moved.pending =~= visits(pages.drop_first()) + mark + seq![ItemModel::Leave]);
        lemma_advance_to_end(moved, pages.drop_first(), marks, root);
        assert(moved.found + pages.drop_first() =~= m.found + pages);
    } else if marks == 1 {
        assert(idle.pending[0] == ItemModel::Leave);
        let left = WalkModel {
            open: closed_one(idle.open),
            pending: idle.pending.drop_first(),
            ..idle
        };
        assert(left.pending =~= visits(pages) + Seq::<ItemModel>::empty() + seq![
            ItemModel::Leave,
        ]);
        lemma_advance_to_end(left, pages, 0, root);
    } else {
        assert(idle.pending[0] == ItemModel::Leave);
        let left = WalkModel {
            open: closed_one(idle.open),
            pending: idle.pending.drop_first(),
            ..idle
        };
        assert(left.pending =~= Seq::<ItemModel>::empty());
        assert(left.open =~= Seq::<Seq<char>>::empty());
        assert(m.found + pages =~= m.found);
        assert(advanced(left) == left);
    }
}

/// A sequence of `n` groups of `size` items each flattens to `n * size` items.
pub proof fn lemma_flatten_len(groups: Seq<Seq<Seq<char>>>, size: nat)
    requires
        forall|i: int| 0 <= i < groups.len() ==> (#[trigger] groups[i]).len() == size,
    ensures
        groups.flatten().len() == groups.len() * size,
    decreases groups.len(),
{
    if groups.len() > 0 {
        let rest = groups.drop_first();
        assert forall|i: int| 0 <= i < rest.len() implies (#[trigger] rest[i]).len() == size by {
            assert(rest[i] == groups[i + 1]);
        }
        lemma_flatten_len(rest, size);
        assert(groups.len() * size == rest.len() * size + size) by (nonlinear_arith)
            requires
                groups.len() == rest.len() + 1,
        ;
    } else {
        assert(groups.len() * size == 0) by (nonlinear_arith)
            requires
                groups.len() == 0,
        ;
    }
}

/// A sitemap index that refers to `n` sitemaps other than itself, each of
/// which lists `size` pages, resolves to those `n * size` pages, in the
/// order in which they are listed, each as often as it is listed.
pub proof fn law_index_resolves_to_every_leaf(
    url: Seq<char>,
    subs: Seq<Seq<char>>,
    groups: Seq<Seq<Seq<char>>>,
    size: nat,
)
    requires
        subs.len() == groups.len(),
        forall|i: int| 0 <= i < subs.len() ==> names_sitemap(#[trigger] subs[i]) && subs[i] != url,
        forall|i: int| 0 <= i < groups.len() ==> (#[trigger] groups[i]).len() == size,
        forall|i: int, j: int|
            0 <= i < groups.len() && 0 <= j < groups[i].len() ==> !names_sitemap(
                #[trigger] groups[i][j],
            ),
    ensures
        ({
            let end = run(start(url), seq![ListingModel::Sitemap(subs)] + sitemaps_of(groups));
            &&& finished(end)
            &&& outcome(end) == Some(groups.flatten())
            &&& groups.flatten().len() == subs.len() * size
        }),
{
    let listings = seq![ListingModel::Sitemap(subs)] + sitemaps_of(groups);
    let first = advanced(start(url));
    assert(start(url).pending[0] == ItemModel::Visit(url));
    assert(!start(url).open.contains(url));
    assert(first.current == Some(url));
    let next = fed(first, listings[0]);
    assert(listings.drop_first() =~= sitemaps_of(groups));
    assert(next.open =~= seq![url]);
    assert(next.pending =~= visits(Seq::<Seq<char>>::empty()) + Seq::<ItemModel>::empty() + (
    visits(subs) + seq![ItemModel::Leave]));
    lemma_run_over_sitemaps(next, Seq::empty(), 0, subs, groups, url);
    assert(next.found + Seq::<Seq<char>>::empty() + groups.flatten() =~= groups.flatten());
    lemma_flatten_len(groups, size);
}

/// A location is only fetched while it is not open: no sitemap is resolved
/// within itself, so a sitemap that lists itself, directly or through
/// others, does not keep the resolution going for ever.
pub proof fn law_no_sitemap_within_itself(m: WalkModel)
    ensures
        advanced(m).current matches Some(url) ==> !advanced(m).open.contains(url),
    decreases m.pending.len(),
{
    let idle = WalkModel { current: None, ..m };
    if idle.pending.len() > 0 {
        let rest = WalkModel { pending: idle.pending.drop_first(), ..idle };
        match idle.pending[0] {
            ItemModel::Leave => {
                law_no_sitemap_within_itself(WalkModel { open: closed_one(idle.open), ..rest });
            },
            ItemModel::Visit(url) => if idle.at_root || names_sitemap(url) {
                if idle.open.contains(url) {
                    law_no_sitemap_within_itself(rest);
                }
            } else {
                law_no_sitemap_within_itself(WalkModel { found: idle.found.push(url), ..rest });
            },
        }
    }
}

/// A first location whose fetch gives a body that is no sitemap resolves to
/// exactly one URL: that location.
pub proof fn law_plain_body_resolves_to_its_url(url: Seq<char>, reply: Option<Reply>)
    requires
        usable_body(reply).is_some(),
        !is_sitemap_shaped(usable_body(reply).unwrap()),
    ensures
        ({
            let end = run(start(url), seq![listing_of(reply)]);
            &&& finished(end)
            &&& outcome(end) == Some(seq![url])
        }),
{
    let listings = seq![listing_of(reply)];
    let first = advanced(start(url));
    assert(start(url).pending[0] == ItemModel::Visit(url));
    assert(!start(url).open.contains(url));
    let next = fed(first, listings[0]);
    assert(next.found =~= seq![url]);
    assert(next.pending =~= Seq::<ItemModel>::empty());
    assert(listings.drop_first() =~= Seq::<ListingModel>::empty());
    assert(run(next, listings.drop_first()) == advanced(next));
}

} // verus!
