use vstd::prelude::*;
use crate::category::{group, is_grouping_of, pages_multiset, Category};
use crate::page::Page;
use crate::validate::{collection_valid, reports_first_fault, validate_pages, PageError};

verus! {

/// The ordered categories that list views render.
#[derive(Clone, PartialEq, Eq, Debug)]
pub struct Summary {
    pub categories: Vec<Category>,
}

impl Summary {
    /// Aggregates categories into a summary, keeping their order and their
    /// pages as they are.
    pub fn build(categories: Vec<Category>) -> (r: Summary)
        ensures
            r.categories@ == categories@,
    {
        Summary { categories }
    }
}

/// Groups the pages and builds the summary of the groups.
pub fn summarize(pages: &Vec<Page>) -> (r: Summary)
    ensures
        is_grouping_of(r.categories@, pages@),
        pages_multiset(r.categories@) == pages@.to_multiset(),
{
    Summary::build(group(pages))
}

/// Checks a loaded page collection and, when it is sound, builds its summary.
/// An empty title or a repeated folder fails the whole build, with the first
/// faulty page reported.
pub fn build_site(pages: &Vec<Page>) -> (r: Result<Summary, PageError>)
    ensures
        r is Ok <==> collection_valid(pages@),
        r matches Ok(s) ==> is_grouping_of(s.categories@, pages@),
        r matches Err(e) ==> exists|i: int| reports_first_fault(pages@, i, e),
{
    match validate_pages(pages) {
        Ok(()) => Ok(summarize(pages)),
        Err(e) => Err(e),
    }
}

} // verus!
