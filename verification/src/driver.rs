//! The pipeline driver: which page is started when, with no more pages in
//! flight than the capacity allows, and what the run gives in the end. The
//! caller scrapes; the driver decides.
use std::collections::VecDeque;
use vstd::prelude::*;
use vstd::string::*;
use crate::page::{PageModel, PageRecord, ScrapedData};

verus! {

/// The state of a run.
pub struct DriverModel {
    /// The most pages that may be in flight at once.
    pub capacity: usize,
    /// The URLs not yet started; the first is next.
    pub waiting: Seq<Seq<char>>,
    /// The number of pages started and not yet landed.
    pub in_flight: usize,
    /// The records of the pages that were scraped, in the order in which
    /// they came in.
    pub pages: Seq<PageModel>,
}

/// The run before anything was started.
pub open spec fn start(urls: Seq<Seq<char>>, capacity: usize) -> DriverModel {
    DriverModel { capacity, waiting: urls, in_flight: 0, pages: Seq::empty() }
}

/// Whether a page can be started: one waits, and fewer pages are in flight
/// than the capacity allows.
pub open spec fn can_launch(m: DriverModel) -> bool {
    m.waiting.len() > 0 && m.in_flight < m.capacity
}

/// The run after a page was started, where one can be.
pub open spec fn launched(m: DriverModel) -> DriverModel {
    if can_launch(m) {
        DriverModel {
            waiting: m.waiting.drop_first(),
            in_flight: (m.in_flight + 1) as usize,
            ..m
        }
    } else {
        m
    }
}

/// The URL of the page that is started, where one can be.
pub open spec fn next_url(m: DriverModel) -> Option<Seq<char>> {
    if can_launch(m) {
        Some(m.waiting[0])
    } else {
        None
    }
}

/// The run after a page came in: one page less is in flight, and its record
/// is kept where the page gave one. A page that failed leaves no trace.
pub open spec fn landed(m: DriverModel, result: Option<PageModel>) -> DriverModel {
    DriverModel {
        in_flight: if m.in_flight > 0 {
            (m.in_flight - 1) as usize
        } else {
            0
        },
        pages: match result {
            Some(page) => m.pages.push(page),
            None => m.pages,
        },
        ..m
    }
}

/// Whether the run is over: nothing waits and nothing is in flight.
pub open spec fn finished(m: DriverModel) -> bool {
    m.waiting.len() == 0 && m.in_flight == 0
}

/// One step of a run: a page is started, or one comes in.
pub enum DriverStep {
    Launch,
    Land(Option<PageModel>),
}

/// The run after the steps, taken in order.
pub open spec fn after(m: DriverModel, steps: Seq<DriverStep>) -> DriverModel
    decreases steps.len(),
{
    if steps.len() == 0 {
        m
    } else {
        match steps.last() {
            DriverStep::Launch => launched(after(m, steps.drop_last())),
            DriverStep::Land(result) => landed(after(m, steps.drop_last()), result),
        }
    }
}

/// The number of pages that come in with a record among the steps.
pub open spec fn records_in(steps: Seq<DriverStep>) -> nat
    decreases steps.len(),
{
    if steps.len() == 0 {
        0
    } else {
        records_in(steps.drop_last()) + if steps.last() matches DriverStep::Land(Some(_)) {
            1nat
        } else {
            0nat
        }
    }
}

/// Whatever steps a run takes, no more pages are in flight than the
/// capacity allows, and it holds one record for each page that came in
/// with one.
pub proof fn law_capacity_is_kept(urls: Seq<Seq<char>>, capacity: usize, steps: Seq<DriverStep>)
    ensures
        after(start(urls, capacity), steps).in_flight <= capacity,
        after(start(urls, capacity), steps).capacity == capacity,
        after(start(urls, capacity), steps).pages.len() == records_in(steps),
    decreases steps.len(),
{
    if steps.len() > 0 {
        law_capacity_is_kept(urls, capacity, steps.drop_last());
    }
}

/// Whether a page only ever comes in while one is in flight, as it does
/// when each landing reports a page that was started before.
pub open spec fn orderly(m: DriverModel, steps: Seq<DriverStep>) -> bool
    decreases steps.len(),
{
    if steps.len() == 0 {
        true
    } else {
        &&& orderly(m, steps.drop_last())
        &&& steps.last() is Land ==> after(m, steps.drop_last()).in_flight > 0
    }
}

/// In a run in which a page only comes in while one is in flight, every URL
/// is accounted for at most once: the records kept, the pages in flight and
/// the URLs still waiting are together no more than the URLs the run
/// started with. So a run never gives more records than it was given URLs.
pub proof fn law_no_more_records_than_urls(
    urls: Seq<Seq<char>>,
    capacity: usize,
    steps: Seq<DriverStep>,
)
    requires
        orderly(start(urls, capacity), steps),
    ensures
        ({
            let m = after(start(urls, capacity), steps);
            &&& m.pages.len() + m.in_flight + m.waiting.len() <= urls.len()
            &&& m.pages.len() <= urls.len()
        }),
    decreases steps.len(),
{
    if steps.len() > 0 {
        law_no_more_records_than_urls(urls, capacity, steps.drop_last());
    }
}

/// A run in progress.
pub struct Driver {
    capacity: usize,
    waiting: VecDeque<String>,
    in_flight: usize,
    pages: Vec<PageRecord>,
}

impl View for Driver {
    type V = DriverModel;

    closed spec fn view(&self) -> DriverModel {
        DriverModel {
            capacity: self.capacity,
            waiting: self.waiting.deep_view(),
            in_flight: self.in_flight,
            pages: self.pages.deep_view(),
        }
    }
}

impl Driver {
    /// A run over `urls` with at most `capacity` pages in flight at once.
    pub fn new(urls: Vec<String>, capacity: usize) -> (d: Driver)
        ensures
            d@ == start(urls.deep_view(), capacity),
    {
        let ghost all = urls.deep_view();
        let mut waiting: VecDeque<String> = VecDeque::new();
        assert(waiting.deep_view() =~= all.take(0));
        for url in it: urls
            invariant
                all == it.seq().map_values(|u: String| u@),
                waiting.deep_view() == all.take(it.index() as int),
        {
            let ghost before = waiting.deep_view();
            let ghost k = it.index() as int;
            waiting.push_back(url);
            assert(waiting.deep_view() =~= before.push(url@));
            assert(all.take(k + 1) =~= all.take(k).push(url@));
        }
        assert(all.take(all.len() as int) =~= all);
        let pages: Vec<PageRecord> = Vec::new();
        let d = Driver { capacity, waiting, in_flight: 0, pages };
        assert(d@.pages =~= Seq::empty());
        d
    }

    /// Starts the next page where one can be started, and says which.
    pub fn launch(&mut self) -> (r: Option<String>)
        ensures
            final(self)@ == launched(old(self)@),
            r.deep_view() == next_url(old(self)@),
    {
        if self.in_flight < self.capacity {
            let ghost before = self@;
            match self.waiting.pop_front() {
                Some(url) => {
                    self.in_flight = self.in_flight + 1;
                    assert(self@.waiting =~= before.waiting.drop_first());
                    assert(before.waiting[0] == url@);
                    Some(url)
                },
                None => None,
            }
        } else {
            None
        }
    }

    /// Takes in what a page gave.
    pub fn land(&mut self, result: Option<PageRecord>)
        ensures
            final(self)@ == landed(old(self)@, result.deep_view()),
    {
        if self.in_flight > 0 {
            self.in_flight = self.in_flight - 1;
        }
        match result {
            Some(page) => {
                let ghost before = self@.pages;
                self.pages.push(page);
                assert(self@.pages =~= before.push(page.deep_view()));
            },
            None => {},
        }
    }

    /// The number of pages in flight.
    pub fn in_flight(&self) -> (r: usize)
        ensures
            r == self@.in_flight,
    {
        self.in_flight
    }

    /// Whether the run is over.
    pub fn is_finished(&self) -> (r: bool)
        ensures
            r == finished(self@),
    {
        self.waiting.len() == 0 && self.in_flight == 0
    }

    /// Ends the run: the records of the pages that were scraped, in the
    /// order in which they came in, and their number.
    pub fn into_data(self) -> (r: ScrapedData)
        ensures
            r.pages.deep_view() == self@.pages,
            r.total_pages == r.pages.len(),
            r.total_pages == self@.pages.len(),
    {
        ScrapedData { total_pages: self.pages.len(), pages: self.pages }
    }
}

} // verus!
