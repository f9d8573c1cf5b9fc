//! The content pipeline of a static website: pages and their permalinks,
//! markdown conversion, validation of a page collection, grouping of pages
//! into categories and the summary that list views render.

mod category;
mod markdown;
mod page;
mod summary;
mod validate;

pub use category::{
    category_key, group, has_category, in_first_seen_order, is_grouping_of, key_occurs,
    lemma_grouping_complete, names_distinct, pages_in, pages_multiset, seen_before, Category,
    DEFAULT_CATEGORY,
};
pub use markdown::{commonmark_html, converts_to, lemma_conversion_deterministic, markdown_to_html};
pub use page::{lemma_permalink_stable, lemma_permalink_well_formed, permalink_of, Page};
pub use summary::{build_site, summarize, Summary};
pub use validate::{
    collection_valid, faulty, folder_repeated, lemma_valid_permalinks_distinct, reports_first_fault,
    title_missing, validate_pages, PageError,
};
