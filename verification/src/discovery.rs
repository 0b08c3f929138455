//! How the pages of a site are found: through a sitemap where one serves,
//! by crawling where none does.
use vstd::prelude::*;
use vstd::string::*;
use crate::text::{contains, ends_with, has_substring, has_suffix};
use crate::web::{parse_address, parsed_address, root_sitemap_of};

verus! {

/// Where discovery starts.
#[derive(Debug, Clone, PartialEq, Eq)]
pub enum Plan {
    /// The target is itself a sitemap: resolve it.
    Resolve(String),
    /// Try the sitemap at the root of the target's site.
    Probe(String),
    /// The target is no URL, or one without a host where a host is needed:
    /// nothing can be done with it.
    Invalid,
}

/// A `Plan` as plain values.
pub enum PlanModel {
    Resolve(Seq<char>),
    Probe(Seq<char>),
    Invalid,
}

impl DeepView for Plan {
    type V = PlanModel;

    open spec fn deep_view(&self) -> PlanModel {
        match self {
            Plan::Resolve(u) => PlanModel::Resolve(u@),
            Plan::Probe(u) => PlanModel::Probe(u@),
            Plan::Invalid => PlanModel::Invalid,
        }
    }
}

/// Whether a target is taken for a sitemap: its URL holds `sitemap` or ends
/// in `.xml`.
pub open spec fn is_sitemap_url(target: Seq<char>) -> bool {
    has_substring(target, "sitemap"@) || has_suffix(target, ".xml"@)
}

/// The plan for a target. A target that is no URL is invalid, whatever it
/// is called. A URL that is taken for a sitemap is resolved; for any other
/// the sitemap at the root of its host is tried, and one without a host is
/// invalid.
pub open spec fn plan_for(target: Seq<char>) -> PlanModel {
    match parsed_address(target) {
        Some(a) => if is_sitemap_url(target) {
            PlanModel::Resolve(target)
        } else {
            match root_sitemap_of(a) {
                Some(u) => PlanModel::Probe(u),
                None => PlanModel::Invalid,
            }
        },
        None => PlanModel::Invalid,
    }
}

/// The URLs that the sitemap gives to scrape, or none where the site is to
/// be crawled instead. A resolution that failed gives none. A sitemap that
/// the target named is taken as it resolved; one that was only tried is
/// taken where it gave more than one URL.
pub open spec fn accepted(plan: PlanModel, outcome: Option<Seq<Seq<char>>>) -> Option<
    Seq<Seq<char>>,
> {
    match outcome {
        Some(urls) => match plan {
            PlanModel::Resolve(_) => Some(urls),
            PlanModel::Probe(_) => if urls.len() > 1 {
                Some(urls)
            } else {
                None
            },
            PlanModel::Invalid => None,
        },
        None => None,
    }
}

/// The plan for a target.
pub fn plan(target: &str) -> (r: Plan)
    ensures
        r.deep_view() == plan_for(target@),
{
    match parse_address(target) {
        Some(a) => {
            if contains(target, "sitemap") || ends_with(target, ".xml") {
                Plan::Resolve(target.to_owned())
            } else {
                match a.root_sitemap() {
                    Some(u) => Plan::Probe(u),
                    None => Plan::Invalid,
                }
            }
        },
        None => Plan::Invalid,
    }
}

/// The URLs to scrape that a resolution gave under a plan, or none where
/// the site is to be crawled.
pub fn accept(plan: &Plan, outcome: Option<Vec<String>>) -> (r: Option<Vec<String>>)
    ensures
        r.deep_view() == accepted(plan.deep_view(), outcome.deep_view()),
{
    match outcome {
        Some(urls) => match plan {
            Plan::Resolve(_) => Some(urls),
            Plan::Probe(_) => if urls.len() > 1 {
                Some(urls)
            } else {
                None
            },
            Plan::Invalid => None,
        },
        None => None,
    }
}

} // verus!
