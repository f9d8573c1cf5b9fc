use vstd::prelude::*;
use crate::page::{lemma_permalink_stable, permalink_of, Page};

verus! {

/// An integrity fault of a page collection, with the folder of the page at fault.
#[derive(Clone, PartialEq, Eq, Debug)]
pub enum PageError {
    /// The page has an empty title.
    EmptyTitle { folder: String },
    /// An earlier page has the same folder.
    DuplicateFolder { folder: String },
}

impl PageError {
    /// The folder of the page at fault.
    pub fn folder(&self) -> (r: &String)
        ensures
            r == match self {
                PageError::EmptyTitle { folder } => folder,
                PageError::DuplicateFolder { folder } => folder,
            },
    {
        match self {
            PageError::EmptyTitle { folder } => folder,
            PageError::DuplicateFolder { folder } => folder,
        }
    }
}

/// The page at `i` has no title.
pub open spec fn title_missing(ps: Seq<Page>, i: int) -> bool {
    ps[i].title@.len() == 0
}

/// Some page before `i` has the folder of the page at `i`.
pub open spec fn folder_repeated(ps: Seq<Page>, i: int) -> bool {
    exists|j: int| 0 <= j < i && ps[j].folder@ == ps[i].folder@
}

/// The page at `i` breaks an integrity rule of the collection.
pub open spec fn faulty(ps: Seq<Page>, i: int) -> bool {
    title_missing(ps, i) || folder_repeated(ps, i)
}

/// Every title is non-empty and every folder is unique.
pub open spec fn collection_valid(ps: Seq<Page>) -> bool {
    forall|i: int| 0 <= i < ps.len() ==> !#[trigger] faulty(ps, i)
}

/// `e` reports the page at `i`, which is the first faulty page: a missing
/// title is reported before a repeated folder.
pub open spec fn reports_first_fault(ps: Seq<Page>, i: int, e: PageError) -> bool {
    &&& 0 <= i < ps.len()
    &&& faulty(ps, i)
    &&& forall|j: int| 0 <= j < i ==> !#[trigger] faulty(ps, j)
    &&& if title_missing(ps, i) {
        e matches PageError::EmptyTitle { folder } && folder@ == ps[i].folder@
    } else {
        e matches PageError::DuplicateFolder { folder } && folder@ == ps[i].folder@
    }
}

/// Checks the integrity of a page collection: every title is non-empty and
/// no two pages share a folder. The first faulty page is reported.
pub fn validate_pages(pages: &Vec<Page>) -> (r: Result<(), PageError>)
    ensures
        r is Ok <==> collection_valid(pages@),
        r matches Err(e) ==> exists|i: int| reports_first_fault(pages@, i, e),
{
    let n = pages.len();
    let mut i: usize = 0;
    while i < n
        invariant
            n == pages@.len(),
            i <= n,
            forall|j: int| 0 <= j < i ==> !#[trigger] faulty(pages@, j),
        decreases n - i,
    {
        let p = &pages[i];
        if p.title.as_str().is_empty() {
            let e = PageError::EmptyTitle { folder: p.folder.clone() };
            assert(reports_first_fault(pages@, i as int, e));
            return Err(e);
        }
        let mut j: usize = 0;
        while j < i
            invariant
                n == pages@.len(),
                i < n,
                j <= i,
                p == pages@[i as int],
                !title_missing(pages@, i as int),
                forall|k: int| 0 <= k < i ==> !#[trigger] faulty(pages@, k),
                forall|k: int| 0 <= k < j ==> pages@[k].folder@ != pages@[i as int].folder@,
            decreases i - j,
        {
            if pages[j].folder == p.folder {
                assert(folder_repeated(pages@, i as int));
                let e = PageError::DuplicateFolder { folder: p.folder.clone() };
                assert(reports_first_fault(pages@, i as int, e));
                return Err(e);
            }
            j += 1;
        }
        assert(!faulty(pages@, i as int));
        i += 1;
    }
    Ok(())
}

/// In a collection that passes validation no two pages share a permalink.
pub proof fn lemma_valid_permalinks_distinct(ps: Seq<Page>, i: int, j: int)
    requires
        collection_valid(ps),
        0 <= i < j < ps.len(),
    ensures
        permalink_of(ps[i].folder@) != permalink_of(ps[j].folder@),
{
    assert(!faulty(ps, j));
    lemma_permalink_stable(ps[i], ps[j]);
}

} // verus!
