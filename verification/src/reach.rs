//! What a crawl reaches: the URLs that stand within the depth limit of the
//! seed on a given web, and the proof that a crawl that ends with budget to
//! spare has recorded exactly those.
use vstd::prelude::*;
use crate::crawl::{
    accepts, advanced, due, enqueue, enqueue_all, fed, law_each_fetch_follows_a_new_page,
    lemma_advanced_sound, lemma_enqueue_sound, lemma_fed_sound, lemma_start_sound, ranks, reach,
    same_setup, sound, start, trail, CrawlModel,
};
use crate::web::host_of;

verus! {

/// Whether the crawl follows a link from the page at `from` to `to`: the
/// page was fetched with success and links to `to`, which has the host that
/// the crawl keeps to. `web` gives the links of each page that can be
/// fetched, and nothing for one that cannot.
pub open spec fn follows(
    web: spec_fn(Seq<char>) -> Option<Seq<Seq<char>>>,
    host: Option<Seq<char>>,
    from: Seq<char>,
    to: Seq<char>,
) -> bool {
    &&& host.is_some()
    &&& host_of(to) == host
    &&& web(from) matches Some(links) && links.contains(to)
}

/// Whether `url` stands within `hops` links of the seed.
pub open spec fn within(
    web: spec_fn(Seq<char>) -> Option<Seq<Seq<char>>>,
    seed: Seq<char>,
    url: Seq<char>,
    hops: nat,
) -> bool
    decreases hops,
{
    if hops == 0 {
        url == seed
    } else {
        url == seed || exists|p: Seq<char>|
            #![trigger follows(web, host_of(seed), p, url)]
            within(web, seed, p, (hops - 1) as nat) && follows(web, host_of(seed), p, url)
    }
}

/// The URLs that stand within `max_depth` links of the seed.
pub open spec fn reachable(
    web: spec_fn(Seq<char>) -> Option<Seq<Seq<char>>>,
    seed: Seq<char>,
    max_depth: usize,
) -> Set<Seq<char>> {
    Set::new(|url: Seq<char>| within(web, seed, url, max_depth as nat))
}

/// The crawl run on a web from `m` on: it advances, is handed the links of
/// the page it asks for, and so on, until it asks for none or `rounds` pages
/// were fetched.
pub open spec fn crawled(
    web: spec_fn(Seq<char>) -> Option<Seq<Seq<char>>>,
    m: CrawlModel,
    rounds: nat,
) -> CrawlModel
    decreases rounds,
{
    let a = advanced(m);
    if rounds == 0 || due(a).is_none() {
        a
    } else {
        crawled(web, fed(a, web(due(a).unwrap())), (rounds - 1) as nat)
    }
}

/// Whether `url` is on the trail at a distance of at most `depth`.
pub open spec fn placed(m: CrawlModel, url: Seq<char>, depth: int) -> bool {
    exists|i: int| 0 <= i < trail(m).len() && #[trigger] trail(m)[i] == url && ranks(m)[i] <= depth
}

/// Whether every link that the crawl follows from the page visited as
/// number `j` is on the trail, at most one level deeper than the page.
pub open spec fn closed_at(
    web: spec_fn(Seq<char>) -> Option<Seq<Seq<char>>>,
    m: CrawlModel,
    j: int,
) -> bool {
    forall|u: Seq<char>| #[trigger]
        follows(web, m.host, m.discovered[j], u) ==> placed(m, u, m.levels[j] + 1)
}

/// Whether the page visited as number `j` is one that the crawl expands.
pub open spec fn expandable(m: CrawlModel, j: int) -> bool {
    m.host.is_some() && m.levels[j] < m.max_depth && j + 1 < m.max_pages
}

/// What holds of a crawl on a web between its steps: it is sound; the seed
/// heads the trail at distance 0; every URL on the trail stands within its
/// distance of the seed; what is marked as visited is on the trail; and
/// every page that is expanded is closed, but for the last one while `open`.
pub open spec fn faithful(
    web: spec_fn(Seq<char>) -> Option<Seq<Seq<char>>>,
    m: CrawlModel,
    open: bool,
) -> bool {
    &&& sound(m)
    &&& trail(m).len() > 0 && trail(m)[0] == m.seed && ranks(m)[0] == 0
    &&& forall|i: int|
        0 <= i < trail(m).len() ==> within(web, m.seed, #[trigger] trail(m)[i], ranks(m)[i] as nat)
    &&& forall|u: Seq<char>| #[trigger] m.visited.contains(u) ==> trail(m).contains(u)
    &&& forall|j: int|
        0 <= j < m.discovered.len() - (if open {
            1int
        } else {
            0int
        }) && expandable(m, j) ==> #[trigger] closed_at(web, m, j)
}

/// Whether the trail of `n` starts with that of `m`.
pub open spec fn extends(m: CrawlModel, n: CrawlModel) -> bool {
    &&& trail(m).len() <= trail(n).len()
    &&& ranks(m).len() == trail(m).len()
    &&& ranks(n).len() == trail(n).len()
    &&& forall|i: int|
        0 <= i < trail(m).len() ==> #[trigger] trail(n)[i] == trail(m)[i] && ranks(n)[i] == ranks(
            m,
        )[i]
}

/// What is placed or closed stays so when the trail grows at its end.
proof fn lemma_extends_keeps(
    web: spec_fn(Seq<char>) -> Option<Seq<Seq<char>>>,
    m: CrawlModel,
    n: CrawlModel,
)
    requires
        extends(m, n),
        n.discovered == m.discovered,
        n.levels == m.levels,
        n.host == m.host,
    ensures
        forall|u: Seq<char>, d: int| placed(m, u, d) ==> placed(n, u, d),
        forall|j: int| closed_at(web, m, j) ==> closed_at(web, n, j),
{
    assert forall|u: Seq<char>, d: int| placed(m, u, d) implies placed(n, u, d) by {
        let i = choose|i: int|
            0 <= i < trail(m).len() && #[trigger] trail(m)[i] == u && ranks(m)[i] <= d;
        assert(trail(n)[i] == u);
    }
    assert forall|j: int| closed_at(web, m, j) implies closed_at(web, n, j) by {
        assert forall|u: Seq<char>| #[trigger]
            follows(web, n.host, n.discovered[j], u) implies placed(n, u, n.levels[j] + 1) by {
            assert(placed(m, u, m.levels[j] + 1));
        }
    }
}

/// A URL within some hops of the seed is within any larger number of them.
pub proof fn lemma_within_grows(
    web: spec_fn(Seq<char>) -> Option<Seq<Seq<char>>>,
    seed: Seq<char>,
    url: Seq<char>,
    hops: nat,
    more: nat,
)
    requires
        within(web, seed, url, hops),
        hops <= more,
    ensures
        within(web, seed, url, more),
    decreases more,
{
    if url != seed && more > 0 {
        let p = choose|p: Seq<char>|
            #![trigger follows(web, host_of(seed), p, url)]
            within(web, seed, p, (hops - 1) as nat) && follows(web, host_of(seed), p, url);
        lemma_within_grows(web, seed, p, (hops - 1) as nat, (more - 1) as nat);
    }
}

/// Every rank on the trail is at most one above the reach.
proof fn lemma_ranks_bounded(m: CrawlModel)
    requires
        sound(m),
        m.levels.len() > 0,
    ensures
        ranks(m).len() == trail(m).len(),
        forall|i: int| 0 <= i < ranks(m).len() ==> #[trigger] ranks(m)[i] <= reach(m) + 1,
{
    assert forall|i: int| 0 <= i < ranks(m).len() implies #[trigger] ranks(m)[i] <= reach(m)
        + 1 by {
        if i < m.levels.len() {
            assert(ranks(m)[i] <= ranks(m)[m.levels.len() - 1]);
            assert(ranks(m)[m.levels.len() - 1] == m.levels.last());
        } else {
            assert(ranks(m)[i] == m.queue[i - m.levels.len()].1);
        }
    }
}

/// Meeting a link of the page visited last keeps the crawl faithful, and
/// puts the link on the trail where it has the crawl's host.
proof fn lemma_enqueue_faithful(
    web: spec_fn(Seq<char>) -> Option<Seq<Seq<char>>>,
    m: CrawlModel,
    link: Seq<char>,
    depth: usize,
)
    requires
        faithful(web, m, true),
        m.current.is_none(),
        m.levels.len() > 0,
        depth == reach(m) + 1,
        depth <= m.max_depth,
        accepts(m, link) ==> within(web, m.seed, link, depth as nat),
    ensures
        faithful(web, enqueue(m, link, depth), true),
        enqueue(m, link, depth).current.is_none(),
        enqueue(m, link, depth).discovered == m.discovered,
        enqueue(m, link, depth).levels == m.levels,
        same_setup(enqueue(m, link, depth), m),
        extends(m, enqueue(m, link, depth)),
        m.host.is_some() && host_of(link) == m.host ==> placed(
            enqueue(m, link, depth),
            link,
            depth as int,
        ),
{
    let n = enqueue(m, link, depth);
    lemma_enqueue_sound(m, link, depth);
    lemma_ranks_bounded(m);
    if accepts(m, link) {
        assert(trail(n) =~= trail(m).push(link));
        assert(ranks(n) =~= ranks(m).push(depth));
        assert(extends(m, n));
        lemma_extends_keeps(web, m, n);
        let last = trail(m).len() as int;
        assert(trail(n)[last] == link && ranks(n)[last] == depth);
        assert(placed(n, link, depth as int));
        assert forall|i: int| 0 <= i < trail(n).len() implies within(
            web,
            n.seed,
            #[trigger] trail(n)[i],
            ranks(n)[i] as nat,
        ) by {
            if i < last {
                assert(trail(n)[i] == trail(m)[i]);
                assert(within(web, m.seed, trail(m)[i], ranks(m)[i] as nat));
            }
        }
        assert forall|u: Seq<char>| #[trigger] n.visited.contains(u) implies trail(n).contains(
            u,
        ) by {
            if u == link {
                assert(trail(n)[last] == u);
            } else {
                assert(m.visited.contains(u));
                let i = choose|i: int| 0 <= i < trail(m).len() && trail(m)[i] == u;
                assert(trail(n)[i] == u);
            }
        }
        assert forall|j: int| 0 <= j < n.discovered.len() - 1 && expandable(n, j) implies #[trigger]
            closed_at(web, n, j) by {
            assert(expandable(m, j));
            assert(closed_at(web, m, j));
        }
    } else {
        assert(n == m);
        if m.host.is_some() && host_of(link) == m.host {
            assert(m.visited.contains(link));
            assert(trail(m).contains(link));
            let i = choose|i: int| 0 <= i < trail(m).len() && trail(m)[i] == link;
            assert(ranks(m)[i] <= reach(m) + 1);
            assert(placed(m, link, depth as int));
        }
    }
}

/// Meeting the links of the page visited last keeps the crawl faithful, and
/// puts each of them that has the crawl's host on the trail.
proof fn lemma_enqueue_all_faithful(
    web: spec_fn(Seq<char>) -> Option<Seq<Seq<char>>>,
    m: CrawlModel,
    links: Seq<Seq<char>>,
    depth: usize,
)
    requires
        faithful(web, m, true),
        m.current.is_none(),
        m.levels.len() > 0,
        depth == reach(m) + 1,
        depth <= m.max_depth,
        forall|k: int|
            0 <= k < links.len() && m.host.is_some() && host_of(#[trigger] links[k]) == m.host
                ==> within(web, m.seed, links[k], depth as nat),
    ensures
        faithful(web, enqueue_all(m, links, depth), true),
        enqueue_all(m, links, depth).current.is_none(),
        enqueue_all(m, links, depth).discovered == m.discovered,
        enqueue_all(m, links, depth).levels == m.levels,
        same_setup(enqueue_all(m, links, depth), m),
        extends(m, enqueue_all(m, links, depth)),
        forall|k: int|
            0 <= k < links.len() && m.host.is_some() && host_of(#[trigger] links[k]) == m.host
                ==> placed(enqueue_all(m, links, depth), links[k], depth as int),
    decreases links.len(),
{
    if links.len() > 0 {
        let before = enqueue_all(m, links.drop_last(), depth);
        let n = enqueue_all(m, links, depth);
        assert forall|k: int|
            0 <= k < links.drop_last().len() && m.host.is_some() && host_of(
                #[trigger] links.drop_last()[k],
            ) == m.host implies within(web, m.seed, links.drop_last()[k], depth as nat) by {
            assert(links.drop_last()[k] == links[k]);
        }
        lemma_enqueue_all_faithful(web, m, links.drop_last(), depth);
        assert(reach(before) == reach(m));
        if accepts(before, links.last()) {
            assert(host_of(links[links.len() - 1]) == m.host);
        }
        lemma_enqueue_faithful(web, before, links.last(), depth);
        lemma_extends_keeps(web, before, n);
        assert forall|k: int|
            0 <= k < links.len() && m.host.is_some() && host_of(#[trigger] links[k])
                == m.host implies placed(n, links[k], depth as int) by {
            if k < links.len() - 1 {
                assert(links.drop_last()[k] == links[k]);
                assert(placed(before, links[k], depth as int));
            }
        }
        assert(extends(m, n)) by {
            assert forall|i: int| 0 <= i < trail(m).len() implies #[trigger] trail(n)[i] == trail(
                m,
            )[i] && ranks(n)[i] == ranks(m)[i] by {
                assert(trail(before)[i] == trail(m)[i]);
            }
        }
    } else {
        lemma_ranks_bounded(m);
    }
}

/// Handing a crawl the links that the web gives for the page it awaits
/// keeps it faithful, and closes that page.
proof fn lemma_fed_faithful(web: spec_fn(Seq<char>) -> Option<Seq<Seq<char>>>, m: CrawlModel)
    requires
        m.current.is_some(),
        faithful(web, m, true),
        m.discovered.len() > 0,
        m.discovered.last() == m.current.unwrap().0,
    ensures
        faithful(web, fed(m, web(m.current.unwrap().0)), false),
        fed(m, web(m.current.unwrap().0)).current.is_none(),
        fed(m, web(m.current.unwrap().0)).discovered == m.discovered,
        same_setup(fed(m, web(m.current.unwrap().0)), m),
{
    let c = m.current.unwrap();
    let links = web(c.0);
    let idle = CrawlModel { current: None, ..m };
    let n = fed(m, links);
    lemma_fed_sound(m, links);
    assert(trail(idle) == trail(m));
    assert(ranks(idle) == ranks(m));
    let last = m.discovered.len() - 1;
    assert forall|j: int| closed_at(web, m, j) implies closed_at(web, idle, j) by {
        assert forall|u: Seq<char>| #[trigger]
            follows(web, idle.host, idle.discovered[j], u) implies placed(
            idle,
            u,
            idle.levels[j] + 1,
        ) by {
            assert(placed(m, u, m.levels[j] + 1));
            let i = choose|i: int|
                0 <= i < trail(m).len() && #[trigger] trail(m)[i] == u && ranks(m)[i] <= m.levels[j]
                    + 1;
            assert(trail(idle)[i] == u);
        }
    }
    assert(faithful(web, idle, true)) by {
        assert forall|j: int|
            0 <= j < idle.discovered.len() - 1 && expandable(idle, j) implies #[trigger] closed_at(
            web,
            idle,
            j,
        ) by {
            assert(expandable(m, j));
            assert(closed_at(web, m, j));
        }
    }
    assert(trail(m)[last] == m.discovered[last]);
    assert(ranks(m)[last] == m.levels[last]);
    assert(within(web, m.seed, c.0, c.1 as nat));
    match links {
        Some(ls) => {
            let depth = (c.1 + 1) as usize;
            assert forall|k: int|
                0 <= k < ls.len() && idle.host.is_some() && host_of(#[trigger] ls[k])
                    == idle.host implies within(web, idle.seed, ls[k], depth as nat) by {
                assert(ls.contains(ls[k]));
                assert(follows(web, host_of(m.seed), c.0, ls[k]));
            }
            lemma_enqueue_all_faithful(web, idle, ls, depth);
            assert forall|j: int| 0 <= j < n.discovered.len() && expandable(n, j) implies #[trigger]
                closed_at(web, n, j) by {
                if j == last {
                    assert forall|u: Seq<char>| #[trigger]
                        follows(web, n.host, n.discovered[j], u) implies placed(
                        n,
                        u,
                        n.levels[j] + 1,
                    ) by {
                        let k = choose|k: int| 0 <= k < ls.len() && ls[k] == u;
                        assert(placed(n, ls[k], depth as int));
                    }
                } else {
                    assert(expandable(idle, j));
                    assert(closed_at(web, idle, j));
                }
            }
        },
        None => {
            assert(n == idle);
            assert forall|j: int| 0 <= j < n.discovered.len() && expandable(n, j) implies #[trigger]
                closed_at(web, n, j) by {
                if j != last {
                    assert(closed_at(web, idle, j));
                }
            }
        },
    }
}

/// A step keeps a crawl faithful; the page it asks for is the one visited
/// last, and where it asks for none, the queue is empty or the budget is
/// used up.
proof fn lemma_advanced_faithful(web: spec_fn(Seq<char>) -> Option<Seq<Seq<char>>>, m: CrawlModel)
    requires
        faithful(web, m, false),
        m.current.is_none(),
    ensures
        faithful(web, advanced(m), advanced(m).current.is_some()),
        same_setup(advanced(m), m),
        advanced(m).current matches Some(c) ==> advanced(m).discovered.len() > 0 && advanced(
            m,
        ).discovered.last() == c.0,
        advanced(m).current.is_none() ==> advanced(m).queue.len() == 0 || advanced(
            m,
        ).discovered.len() >= m.max_pages,
    decreases m.queue.len(),
{
    lemma_advanced_sound(m);
    let idle = CrawlModel { current: None, ..m };
    assert(idle == m);
    if !(idle.queue.len() == 0 || idle.discovered.len() >= idle.max_pages) {
        let head = idle.queue[0];
        let moved = CrawlModel {
            queue: idle.queue.drop_first(),
            discovered: idle.discovered.push(head.0),
            levels: idle.levels.push(head.1),
            ..idle
        };
        assert(trail(moved) =~= trail(idle));
        assert(ranks(moved) =~= ranks(idle));
        let expands = moved.host.is_some() && head.1 < moved.max_depth && moved.discovered.len()
            < moved.max_pages;
        let waiting = CrawlModel { current: Some(head), ..moved };
        assert(trail(waiting) == trail(moved));
        assert(ranks(waiting) == ranks(moved));
        assert forall|j: int| 0 <= j < m.discovered.len() && closed_at(web, m, j) implies closed_at(
            web,
            moved,
            j,
        ) && closed_at(web, waiting, j) by {
            assert forall|u: Seq<char>| #[trigger]
                follows(web, moved.host, moved.discovered[j], u) implies placed(
                moved,
                u,
                moved.levels[j] + 1,
            ) && placed(waiting, u, waiting.levels[j] + 1) by {
                assert(follows(web, m.host, m.discovered[j], u));
                assert(placed(m, u, m.levels[j] + 1));
                let i = choose|i: int|
                    0 <= i < trail(m).len() && #[trigger] trail(m)[i] == u && ranks(m)[i]
                        <= m.levels[j] + 1;
                assert(trail(moved)[i] == u);
                assert(trail(waiting)[i] == u);
            }
        }
        if expands {
            lemma_sound_of_step(m);
            assert(faithful(web, waiting, true)) by {
                assert forall|j: int|
                    0 <= j < waiting.discovered.len() - 1 && expandable(
                        waiting,
                        j,
                    ) implies #[trigger] closed_at(web, waiting, j) by {
                    assert(expandable(m, j));
                    assert(closed_at(web, m, j));
                }
            }
        } else {
            lemma_sound_of_moved(m);
            assert(faithful(web, moved, false)) by {
                assert forall|j: int|
                    0 <= j < moved.discovered.len() && expandable(moved, j) implies #[trigger]
                    closed_at(web, moved, j) by {
                    if j < m.discovered.len() {
                        assert(expandable(m, j));
                        assert(closed_at(web, m, j));
                    }
                }
            }
            lemma_advanced_faithful(web, moved);
        }
    }
}

/// The state in which a step ends that asks for a fetch is sound.
proof fn lemma_sound_of_step(m: CrawlModel)
    requires
        sound(m),
        m.current.is_none(),
        m.queue.len() > 0,
        m.discovered.len() < m.max_pages,
        m.host.is_some() && m.queue[0].1 < m.max_depth && m.discovered.len() + 1 < m.max_pages,
    ensures
        sound(advanced(m)),
        advanced(m) == (CrawlModel {
            current: Some(m.queue[0]),
            queue: m.queue.drop_first(),
            discovered: m.discovered.push(m.queue[0].0),
            levels: m.levels.push(m.queue[0].1),
            ..m
        }),
{
    lemma_advanced_sound(m);
}

/// The state after a page was recorded that is not expanded is sound.
proof fn lemma_sound_of_moved(m: CrawlModel)
    requires
        sound(m),
        m.current.is_none(),
        m.queue.len() > 0,
        m.discovered.len() < m.max_pages,
    ensures
        sound(
            CrawlModel {
                queue: m.queue.drop_first(),
                discovered: m.discovered.push(m.queue[0].0),
                levels: m.levels.push(m.queue[0].1),
                ..m
            },
        ),
{
    let head = m.queue[0];
    let moved = CrawlModel {
        queue: m.queue.drop_first(),
        discovered: m.discovered.push(head.0),
        levels: m.levels.push(head.1),
        ..m
    };
    assert(trail(moved) =~= trail(m));
    assert(ranks(moved) =~= ranks(m));
    assert(ranks(m)[m.levels.len() as int] == head.1);
    assert(m.levels.len() > 0 ==> ranks(m)[m.levels.len() - 1] == reach(m));
    assert(reach(m) <= head.1);
    assert forall|i: int| 0 <= i < moved.queue.len() implies (#[trigger] moved.queue[i]).1
        <= moved.max_depth && moved.queue[i].1 <= reach(moved) + 1 by {
        assert(moved.queue[i] == m.queue[i + 1]);
    }
}

/// Before its first step a crawl is faithful on every web.
proof fn lemma_start_faithful(
    web: spec_fn(Seq<char>) -> Option<Seq<Seq<char>>>,
    seed: Seq<char>,
    max_depth: usize,
    max_pages: usize,
)
    ensures
        faithful(web, start(seed, max_depth, max_pages), false),
{
    let m = start(seed, max_depth, max_pages);
    lemma_start_sound(seed, max_depth, max_pages);
    assert(trail(m) =~= seq![seed]);
    assert(ranks(m) =~= seq![0usize]);
    assert forall|u: Seq<char>| #[trigger] m.visited.contains(u) implies trail(m).contains(u) by {
        assert(trail(m)[0] == u);
    }
}

/// A crawl run on a web stays faithful, and where it ends asking for no
/// page, its queue is empty or its budget is used up.
proof fn lemma_crawled_faithful(
    web: spec_fn(Seq<char>) -> Option<Seq<Seq<char>>>,
    m: CrawlModel,
    rounds: nat,
)
    requires
        faithful(web, m, false),
        m.current.is_none(),
    ensures
        faithful(web, crawled(web, m, rounds), crawled(web, m, rounds).current.is_some()),
        same_setup(crawled(web, m, rounds), m),
        crawled(web, m, rounds).current.is_none() ==> crawled(web, m, rounds).queue.len() == 0
            || crawled(web, m, rounds).discovered.len() >= m.max_pages,
        rounds + m.discovered.len() >= m.max_pages ==> crawled(web, m, rounds).current.is_none(),
    decreases rounds,
{
    lemma_advanced_faithful(web, m);
    law_each_fetch_follows_a_new_page(m);
    let a = advanced(m);
    if !(rounds == 0 || due(a).is_none()) {
        lemma_fed_faithful(web, a);
        lemma_crawled_faithful(web, fed(a, web(due(a).unwrap())), (rounds - 1) as nat);
    }
}

/// In a crawl that is over with budget to spare, every URL within `hops`
/// links of the seed was visited, at a distance of at most `hops`.
proof fn lemma_reached(
    web: spec_fn(Seq<char>) -> Option<Seq<Seq<char>>>,
    m: CrawlModel,
    url: Seq<char>,
    hops: nat,
)
    requires
        faithful(web, m, false),
        m.current.is_none(),
        m.queue.len() == 0,
        m.discovered.len() < m.max_pages,
        within(web, m.seed, url, hops),
        hops <= m.max_depth,
    ensures
        exists|i: int|
            0 <= i < m.discovered.len() && #[trigger] m.discovered[i] == url && m.levels[i] <= hops,
    decreases hops,
{
    assert(trail(m) =~= m.discovered);
    assert(ranks(m) =~= m.levels);
    if url == m.seed {
        assert(m.discovered[0] == url && m.levels[0] <= hops);
    } else {
        let p = choose|p: Seq<char>|
            #![trigger follows(web, host_of(m.seed), p, url)]
            within(web, m.seed, p, (hops - 1) as nat) && follows(web, host_of(m.seed), p, url);
        lemma_reached(web, m, p, (hops - 1) as nat);
        let j = choose|j: int|
            0 <= j < m.discovered.len() && #[trigger] m.discovered[j] == p && m.levels[j] <= hops
                - 1;
        assert(expandable(m, j));
        assert(closed_at(web, m, j));
        assert(follows(web, m.host, m.discovered[j], url));
        assert(placed(m, url, m.levels[j] + 1));
        let i = choose|i: int|
            0 <= i < trail(m).len() && #[trigger] trail(m)[i] == url && ranks(m)[i] <= m.levels[j]
                + 1;
        assert(m.discovered[i] == url && m.levels[i] <= hops);
    }
}

/// A crawl that is run on a web until it asks for no further page, which it
/// does after fewer fetches than `max_pages`, records no URL twice and only
/// URLs that stand within `max_depth` links of the seed. Where it ends with
/// budget to spare, it has recorded every such URL. So where those URLs are
/// finitely many, it records as many of them as the budget allows: their
/// number, or `max_pages` where that is less.
pub proof fn law_crawl_records_what_it_reaches(
    web: spec_fn(Seq<char>) -> Option<Seq<Seq<char>>>,
    seed: Seq<char>,
    max_depth: usize,
    max_pages: usize,
    rounds: nat,
)
    requires
        rounds >= max_pages,
    ensures
        ({
            let end = crawled(web, start(seed, max_depth, max_pages), rounds);
            let all = reachable(web, seed, max_depth);
            &&& due(end).is_none()
            &&& end.discovered.no_duplicates()
            &&& end.discovered.to_set().subset_of(all)
            &&& end.discovered.len() <= max_pages
            &&& end.discovered.len() < max_pages ==> end.discovered.to_set() == all
            &&& all.finite() ==> end.discovered.len() == if all.len() < max_pages {
                all.len()
            } else {
                max_pages as nat
            }
        }),
{
    let first = start(seed, max_depth, max_pages);
    let end = crawled(web, first, rounds);
    let all = reachable(web, seed, max_depth);
    lemma_start_faithful(web, seed, max_depth, max_pages);
    lemma_crawled_faithful(web, first, rounds);
    assert(end.seed == seed && end.max_depth == max_depth && end.max_pages == max_pages);
    assert forall|i: int| 0 <= i < end.discovered.len() implies all.contains(
        #[trigger] end.discovered[i],
    ) by {
        assert(trail(end)[i] == end.discovered[i]);
        assert(ranks(end)[i] == end.levels[i]);
        assert(within(web, seed, trail(end)[i], ranks(end)[i] as nat));
        lemma_within_grows(web, seed, end.discovered[i], end.levels[i] as nat, max_depth as nat);
    }
    assert forall|i: int, j: int|
        0 <= i < end.discovered.len() && 0 <= j < end.discovered.len() && i
            != j implies end.discovered[i] != end.discovered[j] by {
        assert(trail(end)[i] == end.discovered[i]);
        assert(trail(end)[j] == end.discovered[j]);
    }
    assert(end.discovered.to_set().subset_of(all)) by {
        assert forall|u: Seq<char>| end.discovered.to_set().contains(u) implies all.contains(u) by {
            let i = choose|i: int| 0 <= i < end.discovered.len() && end.discovered[i] == u;
            assert(all.contains(end.discovered[i]));
        }
    }
    end.discovered.unique_seq_to_set();
    if end.discovered.len() < max_pages {
        assert forall|u: Seq<char>| all.contains(u) implies end.discovered.to_set().contains(u) by {
            lemma_reached(web, end, u, max_depth as nat);
            let i = choose|i: int|
                0 <= i < end.discovered.len() && #[trigger] end.discovered[i] == u && end.levels[i]
                    <= max_depth;
            assert(end.discovered.contains(u));
        }
        assert(end.discovered.to_set() =~= all);
    } else if all.finite() {
        vstd::set_lib::lemma_len_subset(end.discovered.to_set(), all);
    }
}

} // verus!
