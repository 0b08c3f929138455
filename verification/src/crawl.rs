//! The crawler: breadth-first discovery of the pages of one host, bounded by
//! a depth and by a number of pages. The caller fetches; the crawler decides.
use std::collections::VecDeque;
use vstd::prelude::*;
use vstd::string::*;
use vstd::hash_set::StringHashSet;
use crate::dom::{Document, NodeModel, parsed_nodes};
use crate::text::{before_first, cut_before, has_prefix, same, starts_with};
use crate::web::{body_of, host, host_of, join_address, joined_address, usable_body, Reply};

verus! {

/// Whether the URL is one of the web: `http` or `https`.
pub open spec fn is_web_url(url: Seq<char>) -> bool {
    has_prefix(url, "http://"@) || has_prefix(url, "https://"@)
}

/// The link that a resolved URL stands for: the URL without its fragment,
/// where it is one of the web and something is left of it.
pub open spec fn cleaned_link(url: Seq<char>) -> Option<Seq<char>> {
    if is_web_url(url) && before_first(url, '#').len() > 0 {
        Some(before_first(url, '#'))
    } else {
        None
    }
}

/// The link that `href` on a page at `base` stands for, if it stands for one.
pub open spec fn link_target(base: Seq<char>, href: Seq<char>) -> Option<Seq<char>> {
    match joined_address(base, href) {
        Some(url) => cleaned_link(url),
        None => None,
    }
}

/// The link of node `i`: that of the `href` of an `a` element.
pub open spec fn link_at(dom: Seq<NodeModel>, base: Seq<char>, i: int) -> Option<Seq<char>> {
    if dom[i].is_tag("a"@) && dom[i].attr("href"@).is_some() {
        link_target(base, dom[i].attr("href"@).unwrap())
    } else {
        None
    }
}

/// The links of the nodes in `lo..hi`, in order.
pub open spec fn links_in(dom: Seq<NodeModel>, base: Seq<char>, lo: int, hi: int) -> Seq<
    Seq<char>,
>
    decreases hi - lo,
{
    if hi <= lo {
        Seq::empty()
    } else {
        match link_at(dom, base, hi - 1) {
            Some(l) => links_in(dom, base, lo, hi - 1).push(l),
            None => links_in(dom, base, lo, hi - 1),
        }
    }
}

/// The links of a page at `base`, in document order.
pub open spec fn page_links(dom: Seq<NodeModel>, base: Seq<char>) -> Seq<Seq<char>> {
    links_in(dom, base, 0, dom.len() as int)
}

/// The link that a resolved URL stands for.
pub fn clean_link(url: &str) -> (r: Option<String>)
    ensures
        r.deep_view() == cleaned_link(url@),
{
    if starts_with(url, "http://") || starts_with(url, "https://") {
        let clean = cut_before(url, '#');
        if clean.as_str().is_empty() {
            None
        } else {
            Some(clean)
        }
    } else {
        None
    }
}

/// The link that `href` on a page at `base` stands for.
pub fn resolve_link(base: &str, href: &str) -> (r: Option<String>)
    ensures
        r.deep_view() == link_target(base@, href@),
{
    match join_address(base, href) {
        Some(url) => clean_link(url.as_str()),
        None => None,
    }
}

/// The links of a page at `base`, in document order.
pub fn extract_links(doc: &Document, base: &str) -> (r: Vec<String>)
    ensures
        r.deep_view() == page_links(doc@, base@),
{
    proof {
        doc.lemma_view();
    }
    let n = doc.nodes.len();
    let mut out: Vec<String> = Vec::new();
    let mut k: usize = 0;
    assert(out.deep_view() == Seq::<Seq<char>>::empty());
    while k < n
        invariant
            k <= n == doc@.len(),
            n == doc.nodes.len(),
            forall|t: int| 0 <= t < doc@.len() ==> doc@[t] == (#[trigger] doc.nodes[t]).deep_view(),
            out.deep_view() == links_in(doc@, base@, 0, k as int),
        decreases n - k,
    {
        let node = &doc.nodes[k];
        if node.is_tag("a") {
            match node.attr("href") {
                Some(href) => {
                    match resolve_link(base, href.as_str()) {
                        Some(link) => {
                            let ghost before = out.deep_view();
                            out.push(link);
                            assert(out.deep_view() == before.push(link@));
                        },
                        None => {},
                    }
                },
                None => {},
            }
        }
        k += 1;
    }
    out
}

/// The state of a crawl.
pub struct CrawlModel {
    pub seed: Seq<char>,
    /// Host of the seed; only links to it are followed.
    pub host: Option<Seq<char>>,
    pub max_depth: usize,
    pub max_pages: usize,
    /// URLs still to visit, each with its distance from the seed.
    pub queue: Seq<(Seq<char>, usize)>,
    /// Every URL that was ever put in the queue.
    pub visited: Set<Seq<char>>,
    /// The URLs visited so far, in the order of their visit.
    pub discovered: Seq<Seq<char>>,
    /// For each URL visited, its distance from the seed.
    pub levels: Seq<usize>,
    /// The page whose links are awaited, with its distance from the seed.
    pub current: Option<(Seq<char>, usize)>,
}

/// The URLs of the queue, without their depths.
pub open spec fn queued(m: CrawlModel) -> Seq<Seq<char>> {
    m.queue.map_values(|e: (Seq<char>, usize)| e.0)
}

/// Every URL that the crawl has met and has not dropped: those visited, then
/// those waiting.
pub open spec fn trail(m: CrawlModel) -> Seq<Seq<char>> {
    m.discovered + queued(m)
}

/// The distance from the seed of every URL in the trail: of those visited,
/// then of those waiting.
pub open spec fn ranks(m: CrawlModel) -> Seq<usize> {
    m.levels + m.queue.map_values(|e: (Seq<char>, usize)| e.1)
}

/// The distance from the seed of the URL visited last; 0 before any visit.
pub open spec fn reach(m: CrawlModel) -> usize {
    if m.levels.len() > 0 {
        m.levels.last()
    } else {
        0
    }
}

/// What holds of a crawl in every state: it records no more pages than its
/// budget; every URL it has met has the seed's host, is marked as visited
/// and was met once; URLs are visited and wait in the order of their
/// distance from the seed, none waits more than one level deeper than the
/// one visited last, and none lies deeper than the depth limit; a page whose
/// links are awaited is the one visited last and lies less deep than the
/// depth limit.
pub open spec fn sound(m: CrawlModel) -> bool {
    &&& m.host == host_of(m.seed)
    &&& m.discovered.len() <= m.max_pages
    &&& m.levels.len() == m.discovered.len()
    &&& forall|i: int| 0 <= i < trail(m).len() ==> host_of(#[trigger] trail(m)[i]) == m.host
    &&& forall|i: int| 0 <= i < trail(m).len() ==> m.visited.contains(#[trigger] trail(m)[i])
    &&& trail(m).no_duplicates()
    &&& forall|i: int, j: int| 0 <= i <= j < ranks(m).len() ==> ranks(m)[i] <= ranks(m)[j]
    &&& forall|i: int| 0 <= i < m.levels.len() ==> (#[trigger] m.levels[i]) <= m.max_depth
    &&& forall|i: int|
        0 <= i < m.queue.len() ==> (#[trigger] m.queue[i]).1 <= m.max_depth && m.queue[i].1
            <= reach(m) + 1
    &&& m.current matches Some(c) ==> c.1 < m.max_depth && m.levels.len() > 0 && c.1 == reach(m)
}

/// The crawl before its first step: the seed waits at depth 0.
pub open spec fn start(seed: Seq<char>, max_depth: usize, max_pages: usize) -> CrawlModel {
    CrawlModel {
        seed,
        host: host_of(seed),
        max_depth,
        max_pages,
        queue: seq![(seed, 0usize)],
        visited: set![seed],
        discovered: Seq::empty(),
        levels: Seq::empty(),
        current: None,
    }
}

/// Whether a link is put in the queue: it leads to the seed's host and was
/// not met before.
pub open spec fn accepts(m: CrawlModel, link: Seq<char>) -> bool {
    m.host.is_some() && host_of(link) == m.host && !m.visited.contains(link)
}

/// The crawl after one link was met at `depth`.
pub open spec fn enqueue(m: CrawlModel, link: Seq<char>, depth: usize) -> CrawlModel {
    if accepts(m, link) {
        CrawlModel { visited: m.visited.insert(link), queue: m.queue.push((link, depth)), ..m }
    } else {
        m
    }
}

/// The crawl after the links were met at `depth`, one after another.
pub open spec fn enqueue_all(m: CrawlModel, links: Seq<Seq<char>>, depth: usize) -> CrawlModel
    decreases links.len(),
{
    if links.len() == 0 {
        m
    } else {
        enqueue(enqueue_all(m, links.drop_last(), depth), links.last(), depth)
    }
}

/// The crawl after the awaited page gave its links, or gave none because it
/// could not be had: the links wait one level below the page.
pub open spec fn fed(m: CrawlModel, links: Option<Seq<Seq<char>>>) -> CrawlModel {
    let idle = CrawlModel { current: None, ..m };
    match (m.current, links) {
        (Some(c), Some(ls)) => if c.1 < usize::MAX {
            enqueue_all(idle, ls, (c.1 + 1) as usize)
        } else {
            idle
        },
        _ => idle,
    }
}

/// The crawl after its next step. While the queue holds a URL and the page
/// budget is not used up, the first URL leaves the queue and is recorded; the
/// step ends with the first one that is to be expanded, which is then
/// awaited: one that lies less deep than the depth limit and was recorded
/// with budget to spare, on a crawl whose seed has a host.
pub open spec fn advanced(m: CrawlModel) -> CrawlModel
    decreases m.queue.len(),
{
    let idle = CrawlModel { current: None, ..m };
    if idle.queue.len() == 0 || idle.discovered.len() >= idle.max_pages {
        idle
    } else {
        let head = idle.queue[0];
        let moved = CrawlModel {
            queue: idle.queue.drop_first(),
            discovered: idle.discovered.push(head.0),
            levels: idle.levels.push(head.1),
            ..idle
        };
        if moved.host.is_some() && head.1 < moved.max_depth && moved.discovered.len()
            < moved.max_pages {
            CrawlModel { current: Some(head), ..moved }
        } else {
            advanced(moved)
        }
    }
}

/// The URL that is to be fetched next, if one is.
pub open spec fn due(m: CrawlModel) -> Option<Seq<char>> {
    match m.current {
        Some(c) => Some(c.0),
        None => None,
    }
}

/// The links that a reply to the fetch of `url` gives: those of the page it
/// holds, or none where the fetch did not succeed.
pub open spec fn reply_links(url: Seq<char>, reply: Option<Reply>) -> Option<Seq<Seq<char>>> {
    match usable_body(reply) {
        Some(body) => Some(page_links(parsed_nodes(body), url)),
        None => None,
    }
}

/// Whether two states belong to one crawl: same seed, same limits.
pub open spec fn same_setup(a: CrawlModel, b: CrawlModel) -> bool {
    &&& a.seed == b.seed
    &&& a.host == b.host
    &&& a.max_depth == b.max_depth
    &&& a.max_pages == b.max_pages
}

/// A crawl is sound before its first step.
pub proof fn lemma_start_sound(seed: Seq<char>, max_depth: usize, max_pages: usize)
    ensures
        sound(start(seed, max_depth, max_pages)),
{
    let m = start(seed, max_depth, max_pages);
    assert(trail(m) =~= seq![seed]);
    assert(ranks(m) =~= seq![0usize]);
}

/// Meeting a link keeps a crawl sound and records nothing.
pub proof fn lemma_enqueue_sound(m: CrawlModel, link: Seq<char>, depth: usize)
    requires
        sound(m),
        m.current.is_none(),
        depth <= m.max_depth,
        m.levels.len() > 0,
        depth == reach(m) + 1,
    ensures
        sound(enqueue(m, link, depth)),
        enqueue(m, link, depth).discovered == m.discovered,
        enqueue(m, link, depth).levels == m.levels,
        enqueue(m, link, depth).current == m.current,
{
    if accepts(m, link) {
        let n = enqueue(m, link, depth);
        assert(trail(n) =~= trail(m).push(link));
        assert(ranks(n) =~= ranks(m).push(depth));
        assert forall|i: int| 0 <= i < ranks(m).len() implies ranks(m)[i] <= depth by {
            if i < m.levels.len() {
                assert(ranks(m)[i] <= ranks(m)[m.levels.len() - 1]);
            } else {
                assert(ranks(m)[i] == m.queue[i - m.levels.len()].1);
            }
        }
        assert forall|i: int, j: int| 0 <= i < trail(n).len() && 0 <= j < trail(n).len() && i
            != j implies trail(n)[i] != trail(n)[j] by {
            if i < trail(m).len() {
                assert(m.visited.contains(trail(m)[i]));
            }
            if j < trail(m).len() {
                assert(m.visited.contains(trail(m)[j]));
            }
        }
        assert forall|i: int| 0 <= i < trail(n).len() implies n.visited.contains(
            #[trigger] trail(n)[i],
        ) by {
            if i < trail(m).len() {
                assert(m.visited.contains(trail(m)[i]));
            }
        }
        assert forall|i: int| 0 <= i < trail(n).len() implies host_of(#[trigger] trail(n)[i])
            == n.host by {
            if i < trail(m).len() {
                assert(host_of(trail(m)[i]) == m.host);
            }
        }
    }
}

/// Meeting links keeps a crawl sound and records nothing.
pub proof fn lemma_enqueue_all_sound(m: CrawlModel, links: Seq<Seq<char>>, depth: usize)
    requires
        sound(m),
        m.current.is_none(),
        depth <= m.max_depth,
        m.levels.len() > 0,
        depth == reach(m) + 1,
    ensures
        sound(enqueue_all(m, links, depth)),
        enqueue_all(m, links, depth).discovered == m.discovered,
        enqueue_all(m, links, depth).levels == m.levels,
        enqueue_all(m, links, depth).current == m.current,
        same_setup(enqueue_all(m, links, depth), m),
    decreases links.len(),
{
    if links.len() > 0 {
        lemma_enqueue_all_sound(m, links.drop_last(), depth);
        lemma_enqueue_sound(enqueue_all(m, links.drop_last(), depth), links.last(), depth);
    }
}

/// Handing in a page's links keeps a crawl sound and records nothing.
pub proof fn lemma_fed_sound(m: CrawlModel, links: Option<Seq<Seq<char>>>)
    requires
        sound(m),
    ensures
        sound(fed(m, links)),
        fed(m, links).discovered == m.discovered,
        same_setup(fed(m, links), m),
{
    let idle = CrawlModel { current: None, ..m };
    assert(trail(idle) == trail(m));
    assert(ranks(idle) == ranks(m));
    match (m.current, links) {
        (Some(c), Some(ls)) => {
            lemma_enqueue_all_sound(idle, ls, (c.1 + 1) as usize);
        },
        _ => {},
    }
}

/// A step keeps a crawl sound.
pub proof fn lemma_advanced_sound(m: CrawlModel)
    requires
        sound(m),
    ensures
        sound(advanced(m)),
        same_setup(advanced(m), m),
    decreases m.queue.len(),
{
    let idle = CrawlModel { current: None, ..m };
    assert(trail(idle) == trail(m));
    assert(ranks(idle) == ranks(m));
    if !(idle.queue.len() == 0 || idle.discovered.len() >= idle.max_pages) {
        let head = idle.queue[0];
        let moved = CrawlModel {
            queue: idle.queue.drop_first(),
            discovered: idle.discovered.push(head.0),
            levels: idle.levels.push(head.1),
            ..idle
        };
        assert(trail(moved) =~= trail(idle));
        assert(ranks(moved) =~= ranks(idle));
        assert(ranks(idle)[idle.levels.len() as int] == head.1);
        assert(idle.levels.len() > 0 ==> ranks(idle)[idle.levels.len() - 1] == reach(idle));
        assert(reach(idle) <= head.1);
        assert forall|i: int| 0 <= i < moved.queue.len() implies (#[trigger] moved.queue[i]).1
            <= moved.max_depth && moved.queue[i].1 <= reach(moved) + 1 by {
            assert(moved.queue[i] == idle.queue[i + 1]);
        }
        assert(sound(moved));
        if moved.host.is_some() && head.1 < moved.max_depth && moved.discovered.len()
            < moved.max_pages {
            let waiting = CrawlModel { current: Some(head), ..moved };
            assert(trail(waiting) == trail(moved));
            assert(ranks(waiting) == ranks(moved));
        } else {
            lemma_advanced_sound(moved);
        }
    }
}

/// Every step that asks for a fetch has recorded at least one more page. With
/// the page budget this bounds the fetches of a crawl: it asks for fewer
/// than `max_pages` of them.
pub proof fn law_each_fetch_follows_a_new_page(m: CrawlModel)
    ensures
        advanced(m).discovered.len() >= m.discovered.len(),
        due(advanced(m)).is_some() ==> m.discovered.len() < advanced(m).discovered.len()
            < m.max_pages,
    decreases m.queue.len(),
{
    let idle = CrawlModel { current: None, ..m };
    if !(idle.queue.len() == 0 || idle.discovered.len() >= idle.max_pages) {
        let head = idle.queue[0];
        let moved = CrawlModel {
            queue: idle.queue.drop_first(),
            discovered: idle.discovered.push(head.0),
            levels: idle.levels.push(head.1),
            ..idle
        };
        if !(moved.host.is_some() && head.1 < moved.max_depth && moved.discovered.len()
            < moved.max_pages) {
            law_each_fetch_follows_a_new_page(moved);
        }
    }
}

/// One step of a crawl: it advances, or the awaited page's links come in
/// (none where the page could not be had).
pub enum CrawlStep {
    Advance,
    Links(Option<Seq<Seq<char>>>),
}

/// The crawl after the steps, taken in order.
pub open spec fn after(m: CrawlModel, steps: Seq<CrawlStep>) -> CrawlModel
    decreases steps.len(),
{
    if steps.len() == 0 {
        m
    } else {
        match steps.last() {
            CrawlStep::Advance => advanced(after(m, steps.drop_last())),
            CrawlStep::Links(links) => fed(after(m, steps.drop_last()), links),
        }
    }
}

/// Steps keep a crawl sound.
pub proof fn lemma_after_sound(m: CrawlModel, steps: Seq<CrawlStep>)
    requires
        sound(m),
    ensures
        sound(after(m, steps)),
        same_setup(after(m, steps), m),
    decreases steps.len(),
{
    if steps.len() > 0 {
        lemma_after_sound(m, steps.drop_last());
        match steps.last() {
            CrawlStep::Advance => lemma_advanced_sound(after(m, steps.drop_last())),
            CrawlStep::Links(links) => lemma_fed_sound(after(m, steps.drop_last()), links),
        }
    }
}

/// Whatever steps a crawl takes and whatever links it is handed, it never
/// records more pages than `max_pages`.
pub proof fn law_page_budget_is_kept(
    seed: Seq<char>,
    max_depth: usize,
    max_pages: usize,
    steps: Seq<CrawlStep>,
)
    ensures
        after(start(seed, max_depth, max_pages), steps).discovered.len() <= max_pages,
{
    lemma_start_sound(seed, max_depth, max_pages);
    lemma_after_sound(start(seed, max_depth, max_pages), steps);
}

/// Whatever steps a crawl takes and whatever links it is handed, every URL
/// that it records has the host of the seed, and none is recorded twice.
pub proof fn law_pages_share_the_seed_host(
    seed: Seq<char>,
    max_depth: usize,
    max_pages: usize,
    steps: Seq<CrawlStep>,
)
    ensures
        ({
            let found = after(start(seed, max_depth, max_pages), steps).discovered;
            &&& forall|i: int|
                0 <= i < found.len() ==> host_of(#[trigger] found[i]) == host_of(seed)
            &&& found.no_duplicates()
        }),
{
    let m = after(start(seed, max_depth, max_pages), steps);
    lemma_start_sound(seed, max_depth, max_pages);
    lemma_after_sound(start(seed, max_depth, max_pages), steps);
    assert forall|i: int| 0 <= i < m.discovered.len() implies host_of(#[trigger] m.discovered[i])
        == host_of(seed) by {
        assert(trail(m)[i] == m.discovered[i]);
    }
    assert forall|i: int, j: int|
        0 <= i < m.discovered.len() && 0 <= j < m.discovered.len() && i != j implies m.discovered[i]
        != m.discovered[j] by {
        assert(trail(m)[i] == m.discovered[i]);
        assert(trail(m)[j] == m.discovered[j]);
    }
}

/// Whatever steps a crawl takes and whatever links it is handed, it visits
/// URLs in the order of their distance from the seed, and none beyond the
/// depth limit.
pub proof fn law_visits_go_level_by_level(
    seed: Seq<char>,
    max_depth: usize,
    max_pages: usize,
    steps: Seq<CrawlStep>,
)
    ensures
        ({
            let m = after(start(seed, max_depth, max_pages), steps);
            &&& m.levels.len() == m.discovered.len()
            &&& forall|i: int, j: int| 0 <= i <= j < m.levels.len() ==> m.levels[i] <= m.levels[j]
            &&& forall|i: int| 0 <= i < m.levels.len() ==> (#[trigger] m.levels[i]) <= max_depth
        }),
{
    let m = after(start(seed, max_depth, max_pages), steps);
    lemma_start_sound(seed, max_depth, max_pages);
    lemma_after_sound(start(seed, max_depth, max_pages), steps);
    assert forall|i: int, j: int| 0 <= i <= j < m.levels.len() implies m.levels[i]
        <= m.levels[j] by {
        assert(ranks(m)[i] == m.levels[i]);
        assert(ranks(m)[j] == m.levels[j]);
    }
}

/// A crawl in progress.
pub struct Crawler {
    seed: String,
    host: Option<String>,
    max_depth: usize,
    max_pages: usize,
    queue: VecDeque<(String, usize)>,
    visited: StringHashSet,
    discovered: Vec<String>,
    levels: Vec<usize>,
    current: Option<(String, usize)>,
}

impl View for Crawler {
    type V = CrawlModel;

    closed spec fn view(&self) -> CrawlModel {
        CrawlModel {
            seed: self.seed@,
            host: self.host.deep_view(),
            max_depth: self.max_depth,
            max_pages: self.max_pages,
            queue: self.queue.deep_view(),
            visited: self.visited@,
            discovered: self.discovered.deep_view(),
            levels: self.levels@,
            current: self.current.deep_view(),
        }
    }
}

fn same_host(a: &Option<String>, b: &Option<String>) -> (r: bool)
    ensures
        r == (a.deep_view() == b.deep_view()),
{
    match (a, b) {
        (Some(x), Some(y)) => same(x.as_str(), y.as_str()),
        (None, None) => true,
        _ => false,
    }
}

impl Crawler {
    /// A crawl that starts at `seed`, follows links up to `max_depth` levels
    /// away from it and visits at most `max_pages` pages.
    pub fn new(seed: &str, max_depth: usize, max_pages: usize) -> (c: Crawler)
        ensures
            c@ == start(seed@, max_depth, max_pages),
            sound(c@),
    {
        let mut queue: VecDeque<(String, usize)> = VecDeque::new();
        queue.push_back((seed.to_owned(), 0));
        let mut visited = StringHashSet::new();
        visited.insert(seed.to_owned());
        let discovered: Vec<String> = Vec::new();
        let levels: Vec<usize> = Vec::new();
        let c = Crawler {
            seed: seed.to_owned(),
            host: host(seed),
            max_depth,
            max_pages,
            queue,
            visited,
            discovered,
            levels,
            current: None,
        };
        proof {
            lemma_start_sound(seed@, max_depth, max_pages);
            assert(c@.queue =~= seq![(seed@, 0usize)]);
            assert(c@.visited =~= set![seed@]);
            assert(c@.discovered =~= Seq::empty());
            assert(c@.levels =~= Seq::empty());
        }
        c
    }

    /// The URLs visited so far, in the order of their visit.
    pub fn discovered(&self) -> (r: &Vec<String>)
        ensures
            r.deep_view() == self@.discovered,
    {
        &self.discovered
    }

    /// For each URL visited, its distance from the seed.
    pub fn levels(&self) -> (r: &Vec<usize>)
        ensures
            r@ == self@.levels,
    {
        &self.levels
    }

    /// Ends the crawl and hands out the URLs visited, in the order of their
    /// visit.
    pub fn into_discovered(self) -> (r: Vec<String>)
        ensures
            r.deep_view() == self@.discovered,
    {
        self.discovered
    }

    /// Takes the next step of the crawl and says which URL is to be fetched
    /// for it; none when the crawl is over.
    pub fn next(&mut self) -> (r: Option<String>)
        ensures
            final(self)@ == advanced(old(self)@),
            r.deep_view() == due(final(self)@),
            sound(old(self)@) ==> sound(final(self)@),
    {
        proof {
            if sound(self@) {
                lemma_advanced_sound(self@);
            }
        }
        self.current = None;
        while self.queue.len() > 0 && self.discovered.len() < self.max_pages
            invariant
                self@.current.is_none(),
                advanced(old(self)@) == advanced(self@),
                sound(old(self)@) ==> sound(advanced(old(self)@)),
            decreases self.queue.len(),
        {
            let ghost before = self@;
            let (url, depth) = self.queue.pop_front().unwrap();
            self.discovered.push(url.clone());
            self.levels.push(depth);
            proof {
                assert(self@.queue =~= before.queue.drop_first());
                assert(self@.discovered =~= before.discovered.push(before.queue[0].0));
                assert(before.queue[0] == (url@, depth));
            }
            if self.host.is_some() && depth < self.max_depth && self.discovered.len()
                < self.max_pages {
                self.current = Some((url.clone(), depth));
                return Some(url);
            }
        }
        None
    }

    fn enqueue(&mut self, link: String, depth: usize)
        ensures
            final(self)@ == enqueue(old(self)@, link@, depth),
    {
        if self.host.is_none() {
            return ;
        }
        let link_host = host(link.as_str());
        if same_host(&link_host, &self.host) && !self.visited.contains(link.as_str()) {
            let ghost before = self@;
            self.visited.insert(link.clone());
            self.queue.push_back((link, depth));
            assert(self@.queue =~= before.queue.push((link@, depth)));
        }
    }

    /// Hands the crawl the links of the page it awaits, or none where the
    /// page could not be had.
    pub fn feed_links(&mut self, links: Option<Vec<String>>)
        ensures
            final(self)@ == fed(old(self)@, links.deep_view()),
            sound(old(self)@) ==> sound(final(self)@),
    {
        proof {
            if sound(self@) {
                lemma_fed_sound(self@, links.deep_view());
            }
        }
        let current = self.current.take();
        match (current, links) {
            (Some(page), Some(found)) => {
                if page.1 < usize::MAX {
                    let depth = page.1 + 1;
                    let ghost idle = self@;
                    let mut k: usize = 0;
                    assert(found.deep_view().take(0) =~= Seq::<Seq<char>>::empty());
                    while k < found.len()
                        invariant
                            k <= found.len(),
                            self@ == enqueue_all(idle, found.deep_view().take(k as int), depth),
                        decreases found.len() - k,
                    {
                        let ghost done = found.deep_view().take(k as int);
                        let ghost next = found.deep_view().take(k + 1);
                        assert(next.drop_last() =~= done);
                        assert(next.last() == found[k as int]@);
                        self.enqueue(found[k].clone(), depth);
                        k += 1;
                    }
                    assert(found.deep_view().take(k as int) =~= found.deep_view());
                }
            },
            _ => {},
        }
    }

    /// Hands the crawl the reply to the fetch of the page it awaits. A reply
    /// that reports success is parsed for its links; any other leaves the
    /// page without links.
    pub fn feed(&mut self, reply: &Option<Reply>)
        ensures
            final(self)@ == fed(
                old(self)@,
                match due(old(self)@) {
                    Some(url) => reply_links(url, *reply),
                    None => None,
                },
            ),
            sound(old(self)@) ==> sound(final(self)@),
    {
        let links = match (&self.current, body_of(reply)) {
            (Some(page), Some(body)) => {
                let doc = Document::parse(body.as_str());
                Some(extract_links(&doc, page.0.as_str()))
            },
            _ => None,
        };
        self.feed_links(links)
    }
}

} // verus!
